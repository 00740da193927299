use vstd::prelude::*;

verus! {

/// Display language of the progress lines.
#[allow(non_camel_case_types)]
#[derive(Clone, Copy, Debug, PartialEq, Eq, Structural)]
pub enum Language {
    de_DE,
    en_US,
}

/// The four moments of a traversal that are reported, each with its path.
#[derive(Debug)]
pub enum Message {
    DirEntry(String),
    DirLeave(String),
    FileRemove(String),
    DirRemove(String),
}

/// A message with its path as a sequence of characters.
pub enum MessageView {
    DirEntry(Seq<char>),
    DirLeave(Seq<char>),
    FileRemove(Seq<char>),
    DirRemove(Seq<char>),
}

impl View for Message {
    type V = MessageView;

    open spec fn view(&self) -> MessageView {
        match self {
            Message::DirEntry(p) => MessageView::DirEntry(p@),
            Message::DirLeave(p) => MessageView::DirLeave(p@),
            Message::FileRemove(p) => MessageView::FileRemove(p@),
            Message::DirRemove(p) => MessageView::DirRemove(p@),
        }
    }
}

/// The view of a message that may be absent.
pub open spec fn reported(r: Option<Message>) -> Option<MessageView> {
    match r {
        Some(m) => Some(m@),
        None => None,
    }
}

/// The language that a value of `LANG` selects: German when its first five
/// characters are `de_DE`, English otherwise.
pub open spec fn language_of(lang: Seq<char>) -> Language {
    if lang.len() >= 5 && lang.subrange(0, 5) == "de_DE"@ {
        Language::de_DE
    } else {
        Language::en_US
    }
}

/// The text of a line: `head`, the path, then `tail`.
pub open spec fn framed(head: &str, path: Seq<char>, tail: &str) -> Seq<char> {
    head@ + path + tail@
}

/// The progress line of a message, without its line terminator.
pub open spec fn line_of(lang: Language, m: MessageView) -> Seq<char> {
    match (lang, m) {
        (Language::de_DE, MessageView::DirEntry(p)) => framed(
            "cleanup: Verzeichnis '",
            p,
            "' wird betreten",
        ),
        (Language::de_DE, MessageView::DirLeave(p)) => framed(
            "cleanup: Verzeichnis '",
            p,
            "' wird verlassen",
        ),
        (Language::de_DE, MessageView::FileRemove(p)) => framed(
            "cleanup: Datei '",
            p,
            "' wird gelöscht",
        ),
        (Language::de_DE, MessageView::DirRemove(p)) => framed(
            "cleanup: Verzeichnis '",
            p,
            "' wird gelöscht",
        ),
        (Language::en_US, MessageView::DirEntry(p)) => framed(
            "cleanup: Entering directory '",
            p,
            "'",
        ),
        (Language::en_US, MessageView::DirLeave(p)) => framed(
            "cleanup: Leaving directory '",
            p,
            "'",
        ),
        (Language::en_US, MessageView::FileRemove(p)) => framed(
            "cleanup: Deleting file '",
            p,
            "'",
        ),
        (Language::en_US, MessageView::DirRemove(p)) => framed(
            "cleanup: Deleting directory '",
            p,
            "'",
        ),
    }
}

fn frame_path(head: &str, path: &String, tail: &str) -> (r: String)
    ensures
        r@ == framed(head, path@, tail),
{
    let mut r = String::from_str(head);
    r.append(path.as_str());
    r.append(tail);
    r
}

impl Language {
    /// Picks the language from the value of `LANG`.
    pub fn from_lang(lang: &str) -> (r: Language)
        ensures
            r == language_of(lang@),
    {
        proof {
            reveal_strlit("de_DE");
        }
        if lang.unicode_len() < 5 {
            return Language::en_US;
        }
        let german = lang.get_char(0) == 'd' && lang.get_char(1) == 'e' && lang.get_char(2) == '_'
            && lang.get_char(3) == 'D' && lang.get_char(4) == 'E';
        if german {
            assert(lang@.subrange(0, 5) =~= "de_DE"@);
            Language::de_DE
        } else {
            proof {
                if lang@.subrange(0, 5) == "de_DE"@ {
                    assert(lang@[0] == lang@.subrange(0, 5)[0]);
                    assert(lang@[1] == lang@.subrange(0, 5)[1]);
                    assert(lang@[2] == lang@.subrange(0, 5)[2]);
                    assert(lang@[3] == lang@.subrange(0, 5)[3]);
                    assert(lang@[4] == lang@.subrange(0, 5)[4]);
                }
            }
            Language::en_US
        }
    }
}

/// Renders the progress line of a message in a language.
pub fn render(lang: Language, msg: &Message) -> (r: String)
    ensures
        r@ == line_of(lang, msg@),
{
    match (lang, msg) {
        (Language::de_DE, Message::DirEntry(p)) => frame_path(
            "cleanup: Verzeichnis '",
            p,
            "' wird betreten",
        ),
        (Language::de_DE, Message::DirLeave(p)) => frame_path(
            "cleanup: Verzeichnis '",
            p,
            "' wird verlassen",
        ),
        (Language::de_DE, Message::FileRemove(p)) => frame_path(
            "cleanup: Datei '",
            p,
            "' wird gelöscht",
        ),
        (Language::de_DE, Message::DirRemove(p)) => frame_path(
            "cleanup: Verzeichnis '",
            p,
            "' wird gelöscht",
        ),
        (Language::en_US, Message::DirEntry(p)) => frame_path("cleanup: Entering directory '", p, "'"),
        (Language::en_US, Message::DirLeave(p)) => frame_path("cleanup: Leaving directory '", p, "'"),
        (Language::en_US, Message::FileRemove(p)) => frame_path("cleanup: Deleting file '", p, "'"),
        (Language::en_US, Message::DirRemove(p)) => frame_path(
            "cleanup: Deleting directory '",
            p,
            "'",
        ),
    }
}

} // verus!
