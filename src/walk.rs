use vstd::prelude::*;

use crate::depth::{permits, DepthLevel};
use crate::message::{reported, Message, MessageView};

verus! {

/// What the filesystem reported of one entry of a directory listing.
#[derive(Clone, Copy, Debug, PartialEq, Eq, Structural)]
pub enum Kind {
    /// A regular file of this length in bytes.
    File(u64),
    /// A directory with this many children.
    Dir(usize),
    /// Anything else: a symbolic link, a device, a socket, a pipe.
    Other,
}

/// One entry of a directory listing: its path and what it is.
#[derive(Debug)]
pub struct Child {
    pub path: String,
    pub kind: Kind,
}

impl View for Child {
    type V = (Seq<char>, Kind);

    open spec fn view(&self) -> (Seq<char>, Kind) {
        (self.path@, self.kind)
    }
}

/// A directory listing as paths and kinds.
pub open spec fn listing_view(listing: Seq<Child>) -> Seq<(Seq<char>, Kind)> {
    listing.map_values(|c: Child| c@)
}

/// A directory being scanned: its path, its depth (1 at the start), its
/// listing, and how many entries of the listing have been handled.
pub struct FrameView {
    pub path: Seq<char>,
    pub depth: u32,
    pub children: Seq<(Seq<char>, Kind)>,
    pub next: int,
}

/// The state of a traversal: the directories open from the start down, and
/// every message reported so far.
pub struct WalkerView {
    pub bound: DepthLevel,
    pub frames: Seq<FrameView>,
    pub awaiting: bool,
    pub log: Seq<MessageView>,
    /// Every entry handled so far, with the depth of the directory that listed it.
    pub handled: Seq<((Seq<char>, Kind), u32)>,
}

/// Whether a directory at `depth` may be descended from; a depth that can no
/// longer be counted in a `u32` stops descent as well.
pub open spec fn descends(bound: DepthLevel, depth: u32) -> bool {
    permits(bound, depth) && depth < u32::MAX
}

/// What is reported of an entry listed in a directory at `depth`.
pub open spec fn decide(c: (Seq<char>, Kind), depth: u32, bound: DepthLevel) -> Option<MessageView> {
    match c.1 {
        Kind::File(len) => if len == 0 {
            Some(MessageView::FileRemove(c.0))
        } else {
            None
        },
        Kind::Dir(count) => if count == 0 {
            Some(MessageView::DirRemove(c.0))
        } else if descends(bound, depth) {
            Some(MessageView::DirEntry(c.0))
        } else {
            None
        },
        Kind::Other => None,
    }
}

/// The removal that an entry calls for: an empty regular file or a
/// directory without children.
pub open spec fn removal_of(c: (Seq<char>, Kind)) -> Option<MessageView> {
    match c.1 {
        Kind::File(len) => if len == 0 {
            Some(MessageView::FileRemove(c.0))
        } else {
            None
        },
        Kind::Dir(count) => if count == 0 {
            Some(MessageView::DirRemove(c.0))
        } else {
            None
        },
        Kind::Other => None,
    }
}

pub open spec fn is_removal(m: MessageView) -> bool {
    m is FileRemove || m is DirRemove
}

/// The removals among the reports, in order.
pub open spec fn removals(log: Seq<MessageView>) -> Seq<MessageView>
    decreases log.len(),
{
    if log.len() == 0 {
        Seq::empty()
    } else if is_removal(log.last()) {
        removals(log.drop_last()).push(log.last())
    } else {
        removals(log.drop_last())
    }
}

/// The removals that handled entries call for, in order.
pub open spec fn removals_of(handled: Seq<((Seq<char>, Kind), u32)>) -> Seq<MessageView>
    decreases handled.len(),
{
    if handled.len() == 0 {
        Seq::empty()
    } else {
        match removal_of(handled.last().0) {
            Some(m) => removals_of(handled.drop_last()).push(m),
            None => removals_of(handled.drop_last()),
        }
    }
}

/// How many times `m` occurs in `s`.
pub open spec fn occurrences(s: Seq<MessageView>, m: MessageView) -> nat
    decreases s.len(),
{
    if s.len() == 0 {
        0
    } else {
        occurrences(s.drop_last(), m) + if s.last() == m {
            1nat
        } else {
            0nat
        }
    }
}

/// How many handled entries call for the removal `m`.
pub open spec fn calls_for(handled: Seq<((Seq<char>, Kind), u32)>, m: MessageView) -> nat
    decreases handled.len(),
{
    if handled.len() == 0 {
        0
    } else {
        calls_for(handled.drop_last(), m) + if removal_of(handled.last().0) == Some(m) {
            1nat
        } else {
            0nat
        }
    }
}

/// Whether a directory at `depth` may be scanned under `bound`: the start
/// always, any other only when it is within the bound.
pub open spec fn scannable(bound: DepthLevel, depth: u32) -> bool {
    depth == 1 || match bound {
        DepthLevel::Bound(n) => 1 <= depth <= n,
        DepthLevel::Infinity => depth >= 1,
    }
}

/// The paths entered and not yet left, outermost first, when every leave in
/// `log` closes the innermost open entry; `None` when one does not.
pub open spec fn open_entries(log: Seq<MessageView>) -> Option<Seq<Seq<char>>>
    decreases log.len(),
{
    if log.len() == 0 {
        Some(Seq::empty())
    } else {
        match open_entries(log.drop_last()) {
            None => None,
            Some(open) => match log.last() {
                MessageView::DirEntry(p) => Some(open.push(p)),
                MessageView::DirLeave(p) => if open.len() > 0 && open.last() == p {
                    Some(open.drop_last())
                } else {
                    None
                },
                _ => Some(open),
            },
        }
    }
}

/// The paths of the open directories below the start.
pub open spec fn entered_paths(frames: Seq<FrameView>) -> Seq<Seq<char>> {
    if frames.len() == 0 {
        Seq::empty()
    } else {
        Seq::new((frames.len() - 1) as nat, |i: int| frames[i + 1].path)
    }
}

/// The record of reports after a step that reported `r`.
pub open spec fn logged(log: Seq<MessageView>, r: Option<MessageView>) -> Seq<MessageView> {
    match r {
        Some(m) => log.push(m),
        None => log,
    }
}

impl FrameView {
    /// The frame with its next entry handled.
    pub open spec fn advanced(self) -> FrameView {
        FrameView { next: self.next + 1, ..self }
    }
}

impl WalkerView {
    pub open spec fn finished(self) -> bool {
        self.frames.len() == 0
    }

    pub open spec fn top(self) -> FrameView {
        self.frames.last()
    }

    pub open spec fn wf(self) -> bool {
        &&& self.awaiting ==> {
            &&& self.frames.len() >= 2
            &&& self.top().children.len() == 0
            &&& self.top().next == 0
        }
        &&& forall|i: int| 0 <= i < self.frames.len() ==> (#[trigger] self.frames[i]).depth == i + 1
        &&& forall|i: int|
            0 <= i < self.frames.len() ==> 0 <= (#[trigger] self.frames[i]).next
                <= self.frames[i].children.len()
        &&& forall|i: int|
            0 <= i < self.frames.len() - 1 ==> {
                &&& (#[trigger] self.frames[i]).next >= 1
                &&& self.frames[i + 1].path == self.frames[i].children[self.frames[i].next - 1].0
            }
        &&& forall|i: int|
            0 <= i < self.frames.len() - 1 ==> descends(self.bound, #[trigger] self.frames[i].depth)
        &&& open_entries(self.log) == Some(entered_paths(self.frames))
        &&& removals(self.log) == removals_of(self.handled)
        &&& forall|k: int|
            0 <= k < self.handled.len() ==> scannable(self.bound, (#[trigger] self.handled[k]).1)
    }

    /// The state after one step, and what that step reports.
    pub open spec fn stepped(self) -> (WalkerView, Option<MessageView>) {
        if self.finished() {
            (self, None)
        } else if self.top().next >= self.top().children.len() {
            let r = if self.frames.len() == 1 {
                None
            } else {
                Some(MessageView::DirLeave(self.top().path))
            };
            (WalkerView { frames: self.frames.drop_last(), log: logged(self.log, r), ..self }, r)
        } else {
            let top = self.top();
            let c = top.children[top.next];
            let r = decide(c, top.depth, self.bound);
            let frames = self.frames.update(self.frames.len() - 1, top.advanced());
            let frames = if r matches Some(MessageView::DirEntry(_)) {
                frames.push(
                    FrameView { path: c.0, depth: (top.depth + 1) as u32, children: Seq::empty(), next: 0 },
                )
            } else {
                frames
            };
            (
                WalkerView {
                    frames,
                    awaiting: r matches Some(MessageView::DirEntry(_)),
                    log: logged(self.log, r),
                    handled: self.handled.push((c, top.depth)),
                    ..self
                },
                r,
            )
        }
    }
}

/// Of a handled entry that is a regular file: it is reported for removal,
/// by one step, exactly when its length is zero, and the step moves past it
/// so that no later step reports it again.
pub proof fn lemma_file_fate(w: WalkerView)
    requires
        w.wf(),
        !w.finished(),
        0 <= w.top().next < w.top().children.len(),
        w.top().children[w.top().next].1 is File,
    ensures
        ({
            let c = w.top().children[w.top().next];
            let (post, r) = w.stepped();
            &&& c.1->File_0 == 0 ==> r == Some(MessageView::FileRemove(c.0))
            &&& c.1->File_0 > 0 ==> r is None
            &&& post.frames[w.frames.len() - 1].next == w.top().next + 1
        }),
{
}

/// Of a handled entry that is a directory: with no children it is reported
/// for removal; with children it is never reported for removal, only entered
/// or left alone. The step moves past it either way.
pub proof fn lemma_dir_fate(w: WalkerView)
    requires
        w.wf(),
        !w.finished(),
        0 <= w.top().next < w.top().children.len(),
        w.top().children[w.top().next].1 is Dir,
    ensures
        ({
            let c = w.top().children[w.top().next];
            let (post, r) = w.stepped();
            &&& c.1->Dir_0 == 0 ==> r == Some(MessageView::DirRemove(c.0))
            &&& c.1->Dir_0 > 0 ==> (r is None || r == Some(MessageView::DirEntry(c.0)))
            &&& post.frames[w.frames.len() - 1].next == w.top().next + 1
        }),
{
}

/// Under a bound `n` of at least one, every open directory is at depth at
/// most `n`, so an entry that a step reports for removal lies at depth at
/// most `n + 1`.
pub proof fn lemma_depth_bound(w: WalkerView, n: u32)
    requires
        w.wf(),
        w.bound == DepthLevel::Bound(n),
        n >= 1,
    ensures
        forall|i: int| 0 <= i < w.frames.len() ==> (#[trigger] w.frames[i]).depth <= n,
        (w.stepped().1 matches Some(MessageView::FileRemove(_)))
            ==> w.top().depth + 1 <= n + 1,
        (w.stepped().1 matches Some(MessageView::DirRemove(_)))
            ==> w.top().depth + 1 <= n + 1,
{
    assert forall|i: int| 0 <= i < w.frames.len() implies (#[trigger] w.frames[i]).depth <= n by {
        if i > 0 {
            assert(descends(w.bound, w.frames[i - 1].depth));
        }
    }
}

proof fn lemma_entries_close(log: Seq<MessageView>, open: Seq<Seq<char>>)
    requires
        open_entries(log) == Some(open),
    ensures
        forall|i: int|
            0 <= i < log.len() && (#[trigger] log[i]) is DirEntry ==> {
                ||| exists|j: int|
                    i < j < log.len() && #[trigger] log[j] == MessageView::DirLeave(log[i]->DirEntry_0)
                ||| open.contains(log[i]->DirEntry_0)
            },
    decreases log.len(),
{
    if log.len() > 0 {
        let pre = log.drop_last();
        let m = log.last();
        let popen = open_entries(pre)->Some_0;
        lemma_entries_close(pre, popen);
        assert forall|i: int|
            0 <= i < log.len() && (#[trigger] log[i]) is DirEntry implies {
                ||| exists|j: int|
                    i < j < log.len() && #[trigger] log[j] == MessageView::DirLeave(log[i]->DirEntry_0)
                ||| open.contains(log[i]->DirEntry_0)
            } by {
            let p = log[i]->DirEntry_0;
            if i == log.len() - 1 {
                assert(open == popen.push(p));
                assert(open[open.len() - 1] == p);
            } else {
                assert(pre[i] == log[i]);
                if exists|j: int| i < j < pre.len() && #[trigger] pre[j] == MessageView::DirLeave(p) {
                    let j = choose|j: int| i < j < pre.len() && #[trigger] pre[j] == MessageView::DirLeave(p);
                    assert(log[j] == pre[j]);
                } else {
                    assert(popen.contains(p));
                    let k = choose|k: int| 0 <= k < popen.len() && popen[k] == p;
                    match m {
                        MessageView::DirEntry(q) => {
                            assert(open == popen.push(q));
                            assert(open[k] == p);
                        },
                        MessageView::DirLeave(q) => {
                            assert(open == popen.drop_last());
                            if q == p {
                                assert(log[log.len() - 1] == MessageView::DirLeave(p));
                            } else {
                                assert(k < popen.len() - 1);
                                assert(open[k] == p);
                            }
                        },
                        _ => {
                            assert(open == popen);
                        },
                    }
                }
            }
        }
    }
}

/// Once the walker is finished, every directory entered has been left: each
/// `DirEntry(p)` in the record of reports is followed later by a
/// `DirLeave(p)`, and the leaves close the entries innermost first.
pub proof fn lemma_entry_left(w: WalkerView)
    requires
        w.wf(),
        w.finished(),
    ensures
        open_entries(w.log) == Some(Seq::<Seq<char>>::empty()),
        forall|i: int|
            0 <= i < w.log.len() && (#[trigger] w.log[i]) is DirEntry ==> exists|j: int|
                i < j < w.log.len() && #[trigger] w.log[j] == MessageView::DirLeave(
                    w.log[i]->DirEntry_0,
                ),
{
    assert(entered_paths(w.frames) =~= Seq::<Seq<char>>::empty());
    lemma_entries_close(w.log, Seq::empty());
}

proof fn lemma_occurrences_in_removals(log: Seq<MessageView>, m: MessageView)
    requires
        is_removal(m),
    ensures
        occurrences(removals(log), m) == occurrences(log, m),
    decreases log.len(),
{
    if log.len() > 0 {
        let pre = log.drop_last();
        lemma_occurrences_in_removals(pre, m);
        if is_removal(log.last()) {
            assert(removals(log).drop_last() =~= removals(pre));
        }
    }
}

proof fn lemma_occurrences_in_calls(handled: Seq<((Seq<char>, Kind), u32)>, m: MessageView)
    ensures
        occurrences(removals_of(handled), m) == calls_for(handled, m),
    decreases handled.len(),
{
    if handled.len() > 0 {
        let pre = handled.drop_last();
        lemma_occurrences_in_calls(pre, m);
        if removal_of(handled.last().0) is Some {
            assert(removals_of(handled).drop_last() =~= removals_of(pre));
        }
    }
}

proof fn lemma_called_by_some_entry(handled: Seq<((Seq<char>, Kind), u32)>, m: MessageView)
    requires
        calls_for(handled, m) > 0,
    ensures
        exists|k: int|
            0 <= k < handled.len() && removal_of((#[trigger] handled[k]).0) == Some(m),
    decreases handled.len(),
{
    let pre = handled.drop_last();
    if removal_of(handled.last().0) != Some(m) {
        lemma_called_by_some_entry(pre, m);
        let k = choose|k: int| 0 <= k < pre.len() && removal_of((#[trigger] pre[k]).0) == Some(m);
        assert(handled[k] == pre[k]);
    } else {
        assert(removal_of(handled[handled.len() - 1].0) == Some(m));
    }
}

/// Over the whole traversal so far, each removal is reported exactly as
/// many times as the handled entries call for it: once for each empty
/// regular file and each directory found without children. No removal is
/// reported for a non-empty file, a directory with children, or any other
/// entry, and the removals come in the order of their entries.
pub proof fn lemma_removals_reported(w: WalkerView, m: MessageView)
    requires
        w.wf(),
        is_removal(m),
    ensures
        removals(w.log) == removals_of(w.handled),
        occurrences(w.log, m) == calls_for(w.handled, m),
{
    lemma_occurrences_in_removals(w.log, m);
    lemma_occurrences_in_calls(w.handled, m);
}

/// Under a bound `n` of at least one, every removal reported so far was
/// called for by an entry listed in a directory at depth at most `n`, that
/// is, by an entry at depth at most `n + 1`.
pub proof fn lemma_removals_within_bound(w: WalkerView, n: u32, m: MessageView)
    requires
        w.wf(),
        w.bound == DepthLevel::Bound(n),
        n >= 1,
        is_removal(m),
        occurrences(w.log, m) > 0,
    ensures
        exists|k: int|
            0 <= k < w.handled.len() && removal_of((#[trigger] w.handled[k]).0) == Some(m)
                && w.handled[k].1 <= n,
{
    lemma_removals_reported(w, m);
    lemma_called_by_some_entry(w.handled, m);
    let k = choose|k: int| 0 <= k < w.handled.len() && removal_of((#[trigger] w.handled[k]).0) == Some(m);
    assert(scannable(w.bound, w.handled[k].1));
}

/// A directory being scanned, as the walker holds it.
struct Frame {
    path: String,
    depth: u32,
    children: Vec<Child>,
    next: usize,
}

impl View for Frame {
    type V = FrameView;

    closed spec fn view(&self) -> FrameView {
        FrameView {
            path: self.path@,
            depth: self.depth,
            children: listing_view(self.children@),
            next: self.next as int,
        }
    }
}

/// The traversal engine. It holds the directories open from the start down
/// and decides, one listed entry at a time, what is reported and removed.
/// The caller performs the work: it lists each directory that a
/// `DirEntry` message names and hands the listing back with `enter`,
/// unlinks the file of a `FileRemove`, and removes the directory of a
/// `DirRemove`.
pub struct Walker {
    bound: DepthLevel,
    stack: Vec<Frame>,
    awaiting: bool,
    log: Ghost<Seq<MessageView>>,
    handled: Ghost<Seq<((Seq<char>, Kind), u32)>>,
}

impl View for Walker {
    type V = WalkerView;

    closed spec fn view(&self) -> WalkerView {
        WalkerView {
            bound: self.bound,
            frames: self.stack@.map_values(|f: Frame| f@),
            awaiting: self.awaiting,
            log: self.log@,
            handled: self.handled@,
        }
    }
}

proof fn lemma_open_entries_push(log: Seq<MessageView>, m: MessageView)
    ensures
        open_entries(log.push(m)) == match open_entries(log) {
            None => None,
            Some(open) => match m {
                MessageView::DirEntry(p) => Some(open.push(p)),
                MessageView::DirLeave(p) => if open.len() > 0 && open.last() == p {
                    Some(open.drop_last())
                } else {
                    None
                },
                _ => Some(open),
            },
        },
{
    assert(log.push(m).drop_last() =~= log);
}

proof fn lemma_removals_push(log: Seq<MessageView>, m: MessageView)
    ensures
        removals(log.push(m)) == if is_removal(m) {
            removals(log).push(m)
        } else {
            removals(log)
        },
{
    assert(log.push(m).drop_last() =~= log);
}

proof fn lemma_removals_of_push(handled: Seq<((Seq<char>, Kind), u32)>, e: ((Seq<char>, Kind), u32))
    ensures
        removals_of(handled.push(e)) == match removal_of(e.0) {
            Some(m) => removals_of(handled).push(m),
            None => removals_of(handled),
        },
{
    assert(handled.push(e).drop_last() =~= handled);
}

impl Walker {
    /// Starts a traversal of the directory at `path`, at depth 1, whose
    /// entries are `listing`.
    pub fn new(bound: DepthLevel, path: String, listing: Vec<Child>) -> (w: Walker)
        ensures
            w@.wf(),
            w@ == (WalkerView {
                bound,
                frames: seq![
                    FrameView { path: path@, depth: 1, children: listing_view(listing@), next: 0 },
                ],
                awaiting: false,
                log: Seq::empty(),
                handled: Seq::empty(),
            }),
    {
        let ghost pv = path@;
        let ghost lv = listing_view(listing@);
        let mut stack: Vec<Frame> = Vec::new();
        stack.push(Frame { path, depth: 1, children: listing, next: 0 });
        let w = Walker { bound, stack, awaiting: false,
            log: Ghost(Seq::empty()),
            handled: Ghost(Seq::empty()),
        };
        assert(w@.frames =~= seq![FrameView { path: pv, depth: 1, children: lv, next: 0 }]);
        assert(entered_paths(w@.frames) =~= Seq::empty());
        w
    }

    /// Whether the start directory has been fully handled.
    pub fn finished(&self) -> (r: bool)
        ensures
            r == self@.finished(),
    {
        self.stack.len() == 0
    }

    /// Whether the walker waits for the listing of the directory it just entered.
    pub fn awaiting_listing(&self) -> (r: bool)
        ensures
            r == self@.awaiting,
    {
        self.awaiting
    }

    /// Hands over the listing of the directory that the last `DirEntry` named.
    pub fn enter(&mut self, listing: Vec<Child>)
        requires
            old(self)@.wf(),
            old(self)@.awaiting,
        ensures
            final(self)@.wf(),
            final(self)@ == (WalkerView {
                frames: old(self)@.frames.update(
                    old(self)@.frames.len() - 1,
                    FrameView { children: listing_view(listing@), ..old(self)@.top() },
                ),
                awaiting: false,
                ..old(self)@
            }),
    {
        let ghost pre = self@;
        let ghost lv = listing_view(listing@);
        let mut top = self.stack.pop().unwrap();
        top.children = listing;
        self.stack.push(top);
        self.awaiting = false;
        let ghost want = pre.frames.update(pre.frames.len() - 1, FrameView { children: lv, ..pre.top() });
        assert(self@.frames =~= want);
        assert(entered_paths(self@.frames) =~= entered_paths(pre.frames));
    }

    /// Handles the next entry of the innermost open directory, or closes
    /// that directory when its listing is used up, and returns what is to
    /// be reported. Nothing happens once the walker is finished.
    pub fn step(&mut self) -> (r: Option<Message>)
        requires
            old(self)@.wf(),
            !old(self)@.awaiting,
        ensures
            (final(self)@, reported(r)) == old(self)@.stepped(),
            final(self)@.wf(),
    {
        let ghost pre = self@;
        let len = self.stack.len();
        if len == 0 {
            return None;
        }
        let mut top = self.stack.pop().unwrap();
        assert(top@ == pre.top());
        assert(self@.frames =~= pre.frames.drop_last());
        if top.next >= top.children.len() {
            if len == 1 {
                assert(entered_paths(self@.frames) =~= Seq::empty());
                assert(entered_paths(pre.frames) =~= Seq::empty());
                return None;
            }
            let m = Message::DirLeave(top.path);
            proof {
                lemma_open_entries_push(self.log@, m@);
                lemma_removals_push(self.log@, m@);
                let ep = entered_paths(pre.frames);
                assert(ep.last() == pre.top().path);
                assert(entered_paths(self@.frames) =~= ep.drop_last());
            }
            self.log = Ghost(self.log@.push(m@));
            return Some(m);
        }
        let c_path = top.children[top.next].path.clone();
        let kind = top.children[top.next].kind;
        let depth = top.depth;
        assert(pre.top().children[pre.top().next] == (c_path@, kind));
        top.next = top.next + 1;
        self.stack.push(top);
        proof {
            lemma_removals_of_push(self.handled@, ((c_path@, kind), depth));
            if self.stack@.len() >= 2 {
                assert(descends(pre.bound, pre.frames[pre.frames.len() - 2].depth));
            }
        }
        self.handled = Ghost(self.handled@.push(((c_path@, kind), depth)));
        let ghost mid = pre.frames.update(pre.frames.len() - 1, pre.top().advanced());
        assert(self@.frames =~= mid);
        assert(entered_paths(mid) =~= entered_paths(pre.frames));
        let r = match kind {
            Kind::File(size) => {
                if size == 0 {
                    Some(Message::FileRemove(c_path))
                } else {
                    None
                }
            },
            Kind::Dir(count) => {
                if count == 0 {
                    Some(Message::DirRemove(c_path))
                } else if self.bound.allows_increment(&depth) && depth < u32::MAX {
                    let inner = Frame {
                        path: c_path.clone(),
                        depth: depth + 1,
                        children: Vec::new(),
                        next: 0,
                    };
                    assert(listing_view(inner.children@) =~= Seq::empty());
                    self.stack.push(inner);
                    self.awaiting = true;
                    proof {
                        let fv = FrameView {
                            path: c_path@,
                            depth: (depth + 1) as u32,
                            children: Seq::empty(),
                            next: 0,
                        };
                        assert(self@.frames =~= mid.push(fv));
                        assert(entered_paths(mid.push(fv)) =~= entered_paths(mid).push(c_path@));
                    }
                    Some(Message::DirEntry(c_path))
                } else {
                    None
                }
            },
            Kind::Other => None,
        };
        match &r {
            Some(m) => {
                proof {
                    lemma_open_entries_push(self.log@, m@);
                    lemma_removals_push(self.log@, m@);
                }
                self.log = Ghost(self.log@.push(m@));
            },
            None => {},
        }
        r
    }
}

} // verus!
