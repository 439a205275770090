//! A whitespace tokenizer over a borrowed string slice.
//!
//! [`SplitWhitespace`] lazily yields the maximal runs of non-whitespace code
//! points of a slice, left to right, and can hand back the untouched
//! remainder of the slice at any point of the iteration.

use vstd::prelude::*;

verus! {

/// Whitespace classification used throughout: exactly the code points with
/// the Unicode `White_Space` property, the set `char::is_whitespace` accepts.
pub open spec fn is_white(c: char) -> bool {
    (0x09 <= c as u32 && c as u32 <= 0x0d) || c as u32 == 0x20 || c as u32 == 0x85
        || c as u32 == 0xa0 || c as u32 == 0x1680
        || (0x2000 <= c as u32 && c as u32 <= 0x200a) || c as u32 == 0x2028
        || c as u32 == 0x2029 || c as u32 == 0x202f || c as u32 == 0x205f
        || c as u32 == 0x3000
}

/// Index of the first whitespace code point of `s`, or `s.len()` when `s`
/// holds none.
pub open spec fn white_index(s: Seq<char>) -> nat
    decreases s.len(),
{
    if s.len() == 0 {
        0
    } else if is_white(s[0]) {
        0
    } else {
        1 + white_index(s.skip(1))
    }
}

/// `white_index` is the position of the first whitespace code point: nothing
/// before it is whitespace, and it points at whitespace unless it is `s.len()`.
pub proof fn lemma_white_index(s: Seq<char>)
    ensures
        white_index(s) <= s.len(),
        forall|j: int| 0 <= j < white_index(s) ==> !is_white(#[trigger] s[j]),
        white_index(s) < s.len() ==> is_white(s[white_index(s) as int]),
    decreases s.len(),
{
    if s.len() == 0 {
    } else if is_white(s[0]) {
    } else {
        lemma_white_index(s.skip(1));
        assert forall|j: int| 0 <= j < white_index(s) implies !is_white(#[trigger] s[j]) by {
            if j >= 1 {
                assert(s[j] == s.skip(1)[j - 1]);
            }
        }
        if white_index(s) < s.len() {
            assert(s[white_index(s) as int] == s.skip(1)[white_index(s) - 1]);
        }
    }
}

/// One extraction step on the remaining text `s`: the token produced (`None`
/// marks end-of-sequence) and the text that remains afterwards. Leading
/// whitespace is skipped one code point at a time; a token ends at the first
/// whitespace code point, which is consumed along with it; text without any
/// whitespace is produced whole and leaves nothing behind.
pub open spec fn token_step(s: Seq<char>) -> (Option<Seq<char>>, Seq<char>)
    decreases s.len(),
{
    let k = white_index(s);
    if s.len() == 0 {
        (None, s)
    } else if k == 0 {
        token_step(s.skip(1))
    } else if k >= s.len() {
        (Some(s), Seq::empty())
    } else {
        (Some(s.take(k as int)), s.skip(k as int + 1))
    }
}

/// All tokens that repeated extraction will produce from `s`, in order.
pub open spec fn tokens(s: Seq<char>) -> Seq<Seq<char>>
    decreases s.len(),
{
    let k = white_index(s);
    if s.len() == 0 {
        Seq::empty()
    } else if k == 0 {
        tokens(s.skip(1))
    } else if k >= s.len() {
        seq![s]
    } else {
        seq![s.take(k as int)] + tokens(s.skip(k as int + 1))
    }
}

/// The non-whitespace code points of `s`, in order.
pub open spec fn non_white(s: Seq<char>) -> Seq<char>
    decreases s.len(),
{
    if s.len() == 0 {
        Seq::empty()
    } else if is_white(s[0]) {
        non_white(s.skip(1))
    } else {
        seq![s[0]] + non_white(s.skip(1))
    }
}

/// `non_white` distributes over concatenation.
proof fn lemma_non_white_concat(a: Seq<char>, b: Seq<char>)
    ensures
        non_white(a + b) == non_white(a) + non_white(b),
    decreases a.len(),
{
    if a.len() == 0 {
        assert(a + b =~= b);
        assert(non_white(a) + non_white(b) =~= non_white(b));
    } else {
        lemma_non_white_concat(a.skip(1), b);
        assert((a + b).skip(1) =~= a.skip(1) + b);
        assert((a + b)[0] == a[0]);
        if !is_white(a[0]) {
            assert(seq![a[0]] + (non_white(a.skip(1)) + non_white(b)) =~= (seq![a[0]]
                + non_white(a.skip(1))) + non_white(b));
        }
    }
}

/// A text free of whitespace is its own non-whitespace content.
proof fn lemma_non_white_all(s: Seq<char>)
    requires
        forall|j: int| 0 <= j < s.len() ==> !is_white(#[trigger] s[j]),
    ensures
        non_white(s) == s,
    decreases s.len(),
{
    if s.len() > 0 {
        assert forall|j: int| 0 <= j < s.skip(1).len() implies !is_white(
            #[trigger] s.skip(1)[j],
        ) by {
            assert(s.skip(1)[j] == s[j + 1]);
        }
        lemma_non_white_all(s.skip(1));
        assert(seq![s[0]] + s.skip(1) =~= s);
    }
}

/// Extraction and the token list agree: end-of-sequence means the token list
/// is empty, and an extracted token is the head of the token list, with the
/// token list of the remainder as its tail.
pub proof fn lemma_step_tokens(s: Seq<char>)
    ensures
        token_step(s).0 is None ==> tokens(s) == Seq::<Seq<char>>::empty(),
        token_step(s).0 matches Some(t) ==> tokens(s) == seq![t] + tokens(token_step(s).1),
    decreases s.len(),
{
    let k = white_index(s);
    if s.len() == 0 {
    } else if k == 0 {
        lemma_step_tokens(s.skip(1));
    } else if k >= s.len() {
        assert(tokens(Seq::<char>::empty()) == Seq::<Seq<char>>::empty());
        assert(tokens(s) =~= seq![s] + tokens(Seq::<char>::empty()));
    } else {
    }
}

/// Exhaustion is terminal: when extraction signals end-of-sequence, the
/// remaining text is empty, and extraction from that empty remainder signals
/// end-of-sequence again while leaving it empty.
pub proof fn lemma_exhaustion_idempotent(s: Seq<char>)
    ensures
        token_step(s).0 is None ==> token_step(s).1.len() == 0,
        token_step(s).0 is None ==> token_step(token_step(s).1).0 is None,
        token_step(s).0 is None ==> token_step(token_step(s).1).1.len() == 0,
    decreases s.len(),
{
    if s.len() == 0 {
    } else if white_index(s) == 0 {
        lemma_exhaustion_idempotent(s.skip(1));
    } else {
    }
}

/// The remaining text never grows: a successful extraction strictly shrinks
/// it, and exhaustion leaves it empty.
pub proof fn lemma_step_shrinks(s: Seq<char>)
    ensures
        token_step(s).1.len() <= s.len(),
        token_step(s).0 is Some ==> s.len() > 0 && token_step(s).1.len() < s.len(),
    decreases s.len(),
{
    if s.len() == 0 {
    } else if white_index(s) == 0 {
        lemma_step_shrinks(s.skip(1));
    } else {
    }
}

/// Concatenating, in order, all tokens of `s` yields exactly the
/// non-whitespace code points of `s`, in order; moreover every token is
/// non-empty and free of whitespace. Hence joining the tokens with one
/// whitespace separator apiece reconstructs a text whose non-whitespace
/// content is that of `s`.
pub proof fn lemma_tokens_partition(s: Seq<char>)
    ensures
        tokens(s).flatten() == non_white(s),
        forall|i: int| 0 <= i < tokens(s).len() ==> (#[trigger] tokens(s)[i]).len() > 0,
        forall|i: int, j: int|
            0 <= i < tokens(s).len() && 0 <= j < tokens(s)[i].len() ==> !is_white(
                #[trigger] tokens(s)[i][j],
            ),
    decreases s.len(),
{
    let k = white_index(s);
    lemma_white_index(s);
    if s.len() == 0 {
        assert(tokens(s).flatten() =~= non_white(s));
    } else if k == 0 {
        lemma_tokens_partition(s.skip(1));
    } else if k >= s.len() {
        lemma_non_white_all(s);
        assert(seq![s].drop_first() =~= Seq::<Seq<char>>::empty());
        assert(Seq::<Seq<char>>::empty().flatten() =~= Seq::<char>::empty());
        assert(tokens(s).flatten() =~= non_white(s));
    } else {
        let tok = s.take(k as int);
        let rest = s.skip(k as int + 1);
        lemma_tokens_partition(rest);
        // the produced token holds no whitespace
        assert forall|j: int| 0 <= j < tok.len() implies !is_white(#[trigger] tok[j]) by {
            assert(tok[j] == s[j]);
        }
        // flatten peels off the head token
        assert((seq![tok] + tokens(rest)).drop_first() =~= tokens(rest));
        assert(tokens(s).flatten() == tok + tokens(rest).flatten());
        // the text splits as token, one whitespace code point, remainder
        lemma_non_white_all(tok);
        assert(s =~= tok + (seq![s[k as int]] + rest));
        lemma_non_white_concat(tok, seq![s[k as int]] + rest);
        lemma_non_white_concat(seq![s[k as int]], rest);
        assert(seq![s[k as int]].skip(1) =~= Seq::<char>::empty());
        assert(is_white(seq![s[k as int]][0]));
        assert(non_white(Seq::<char>::empty()) == Seq::<char>::empty());
        assert(non_white(seq![s[k as int]]) == non_white(seq![s[k as int]].skip(1)));
        assert(non_white(seq![s[k as int]]) == Seq::<char>::empty());
        assert(non_white(s) =~= tok + non_white(rest));
        // the stated token properties carry over from the remainder
        assert forall|i: int| 0 <= i < tokens(s).len() implies (#[trigger] tokens(s)[i]).len()
            > 0 by {
            if i > 0 {
                assert(tokens(s)[i] == tokens(rest)[i - 1]);
            }
        }
        assert forall|i: int, j: int|
            0 <= i < tokens(s).len() && 0 <= j < tokens(s)[i].len() implies !is_white(
            #[trigger] tokens(s)[i][j],
        ) by {
            if i > 0 {
                assert(tokens(s)[i] == tokens(rest)[i - 1]);
            }
        }
    }
}

/// Decides the whitespace predicate on a single code point.
fn white_char(c: char) -> (b: bool)
    ensures
        b == is_white(c),
{
    let u: u32 = c as u32;
    (0x09 <= u && u <= 0x0d) || u == 0x20 || u == 0x85 || u == 0xa0 || u == 0x1680
        || (0x2000 <= u && u <= 0x200a) || u == 0x2028 || u == 0x2029 || u == 0x202f
        || u == 0x205f || u == 0x3000
}

/// Scans `s` for its first whitespace code point, returning the code-point
/// index of the hit, or the length of `s` in code points when there is none.
fn find_white(s: &str) -> (k: usize)
    ensures
        k == white_index(s@),
{
    let n: usize = s.unicode_len();
    let mut i: usize = 0;
    while i < n
        invariant
            n == s@.len(),
            i <= n,
            forall|j: int| 0 <= j < i ==> !is_white(#[trigger] s@[j]),
        decreases n - i,
    {
        let c = s.get_char(i);
        if white_char(c) {
            proof {
                lemma_white_index(s@);
                if white_index(s@) < i {
                    assert(!is_white(s@[white_index(s@) as int]));
                }
                if white_index(s@) > i {
                    assert(!is_white(s@[i as int]));
                }
            }
            return i;
        }
        i += 1;
    }
    proof {
        lemma_white_index(s@);
        if white_index(s@) < n {
            assert(!is_white(s@[white_index(s@) as int]));
        }
    }
    n
}

/// Iterator over the whitespace-separated substrings of a borrowed string
/// slice, with access to the unconsumed rest of the slice at any point.
pub struct SplitWhitespace<'a> {
    slice: &'a str,
}

impl<'a> View for SplitWhitespace<'a> {
    type V = Seq<char>;

    closed spec fn view(&self) -> Seq<char> {
        self.slice@
    }
}

impl<'a> SplitWhitespace<'a> {
    /// Creates a new `SplitWhitespace` whose remaining text is all of `slice`.
    pub fn new(slice: &'a str) -> (r: Self)
        ensures
            r@ == slice@,
    {
        Self { slice }
    }

    /// Returns the rest of the string slice: everything not yet consumed as a
    /// token or skipped as whitespace, verbatim.
    pub fn rest_as_slice(&self) -> (r: &'a str)
        ensures
            r@ == self@,
    {
        self.slice
    }

    /// Extracts the next token: the next maximal non-empty run of
    /// non-whitespace code points, or `None` once the text is exhausted.
    /// The remainder advances past the token and the single whitespace code
    /// point that terminated it, exactly as `token_step` describes.
    #[verifier::loop_isolation(false)]
    pub fn next_token(&mut self) -> (r: Option<&'a str>)
        ensures
            final(self)@ == token_step(old(self)@).1,
            match r {
                Some(t) => token_step(old(self)@).0 == Some(t@),
                None => token_step(old(self)@).0 is None,
            },
    {
        loop
            invariant
                token_step(self@) == token_step(old(self)@),
            decreases self@.len(),
        {
            let s: &'a str = self.slice;
            let n: usize = s.unicode_len();
            let k: usize = find_white(s);
            if k < n {
                let tok: &'a str = s.substring_char(0, k);
                self.slice = s.substring_char(k + 1, n);
                if k == 0 {
                    // an empty candidate: the text began with whitespace,
                    // which is now skipped; rescan the shortened remainder
                } else {
                    proof {
                        assert(token_step(s@) == (Some(tok@), self@));
                    }
                    return Some(tok);
                }
            } else {
                if n > 0 {
                    self.slice = s.substring_char(n, n);
                    proof {
                        assert(self@ =~= Seq::<char>::empty());
                        assert(token_step(s@) == (Some(s@), self@));
                    }
                    return Some(s);
                } else {
                    return None;
                }
            }
        }
    }
}

} // verus!
