use vstd::prelude::*;

verus! {

/// How deep the traversal may go: descent into a child directory is allowed
/// from a directory at depth `d` when `d` is below the bound.
#[derive(Clone, Copy, Debug, PartialEq, Eq, Structural)]
pub enum DepthLevel {
    Bound(u32),
    Infinity,
}

/// Whether descent from a directory at depth `current` is allowed.
pub open spec fn permits(level: DepthLevel, current: u32) -> bool {
    match level {
        DepthLevel::Bound(bound) => current < bound,
        DepthLevel::Infinity => true,
    }
}

/// Why a depth argument was refused.
#[derive(Clone, Copy, Debug, PartialEq, Eq, Structural)]
pub enum LevelError {
    /// Not an optional `+` followed by one or more decimal digits.
    NotANumber,
    /// A well-formed number above `u32::MAX`.
    TooLarge,
}

pub open spec fn is_digit(c: char) -> bool {
    '0' <= c && c <= '9'
}

pub open spec fn digit_of(c: char) -> nat {
    (c as nat - '0' as nat) as nat
}

/// The decimal value of a string of digits.
pub open spec fn decimal_value(s: Seq<char>) -> nat
    decreases s.len(),
{
    if s.len() == 0 {
        0
    } else {
        decimal_value(s.drop_last()) * 10 + digit_of(s.last())
    }
}

/// The digits of a depth argument: the text without one leading `+`.
pub open spec fn digits_of(s: Seq<char>) -> Seq<char> {
    if s.len() > 0 && s[0] == '+' {
        s.drop_first()
    } else {
        s
    }
}

/// A depth argument is well formed when its digits are one or more decimal digits.
pub open spec fn well_formed_level(s: Seq<char>) -> bool {
    &&& digits_of(s).len() > 0
    &&& forall|i: int| 0 <= i < digits_of(s).len() ==> is_digit(#[trigger] digits_of(s)[i])
}

/// What reading a depth argument gives.
pub open spec fn level_of(s: Seq<char>) -> Result<DepthLevel, LevelError> {
    if !well_formed_level(s) {
        Err(LevelError::NotANumber)
    } else if decimal_value(digits_of(s)) > u32::MAX {
        Err(LevelError::TooLarge)
    } else {
        Ok(DepthLevel::Bound(decimal_value(digits_of(s)) as u32))
    }
}

proof fn lemma_value_grows(s: Seq<char>, c: char)
    requires
        is_digit(c),
    ensures
        decimal_value(s.push(c)) >= decimal_value(s),
        decimal_value(s.push(c)) == decimal_value(s) * 10 + digit_of(c),
{
    assert(s.push(c).drop_last() =~= s);
}

impl DepthLevel {
    pub fn allows_increment(&self, current: &u32) -> (r: bool)
        ensures
            r == permits(*self, *current),
    {
        match self {
            DepthLevel::Bound(bound) => *current < *bound,
            DepthLevel::Infinity => true,
        }
    }

    /// Reads a depth argument: decimal digits, optionally after a `+`.
    pub fn from(inval: &str) -> (r: Result<DepthLevel, LevelError>)
        ensures
            r == level_of(inval@),
    {
        let n = inval.unicode_len();
        let mut start: usize = 0;
        if n > 0 && inval.get_char(0) == '+' {
            start = 1;
        }
        let ghost d = digits_of(inval@);
        assert(d =~= inval@.subrange(start as int, n as int));
        if start == n {
            return Err(LevelError::NotANumber);
        }
        let mut i: usize = start;
        let mut acc: u64 = 0;
        let mut big = false;
        while i < n
            invariant
                start <= i <= n,
                n == inval@.len(),
                d =~= inval@.subrange(start as int, n as int),
                d == digits_of(inval@),
                forall|k: int| 0 <= k < i - start ==> is_digit(#[trigger] d[k]),
                !big ==> acc == decimal_value(d.subrange(0, i - start)),
                !big ==> acc <= u32::MAX,
                big ==> decimal_value(d.subrange(0, i - start)) > u32::MAX,
            decreases n - i,
        {
            let c = inval.get_char(i);
            assert(c == d[i - start]);
            if c < '0' || c > '9' {
                assert(!is_digit(d[i - start]));
                return Err(LevelError::NotANumber);
            }
            proof {
                let pre = d.subrange(0, i - start);
                assert(d.subrange(0, i + 1 - start) =~= pre.push(c));
                lemma_value_grows(pre, c);
            }
            if !big {
                let v = (c as u32 - '0' as u32) as u64;
                acc = acc * 10 + v;
                if acc > 4294967295 {
                    big = true;
                }
            }
            i = i + 1;
        }
        assert(d.subrange(0, n - start) =~= d);
        if big {
            Err(LevelError::TooLarge)
        } else {
            Ok(DepthLevel::Bound(acc as u32))
        }
    }
}

} // verus!
