//! The mathematical model of the textual path grammar `m(/<digits>[h|'])*`:
//! what the canonical rendering of a path is, and what any given text parses
//! to. The executable parser and formatter are specified against these
//! functions, and the library's laws are proved about them.

use crate::child_index::ChildIndex;
use vstd::prelude::*;

verus! {

/// A char that may mark a token as hardened when it stands last.
pub open spec fn is_marker(c: char) -> bool {
    c == '\'' || c == 'h'
}

/// A base-10 digit char.
pub open spec fn is_digit(c: char) -> bool {
    48 <= c as u32 && c as u32 <= 57
}

/// The numeric value of one digit char.
pub open spec fn digit_val(c: char) -> nat {
    ((c as u32) - 48) as nat
}

pub open spec fn all_digits(t: Seq<char>) -> bool {
    forall|i: int| 0 <= i < t.len() ==> is_digit(#[trigger] t[i])
}

/// The value of a digit string, most significant digit first.
pub open spec fn digits_val(t: Seq<char>) -> nat
    decreases t.len(),
{
    if t.len() == 0 {
        0
    } else {
        10 * digits_val(t.drop_last()) + digit_val(t.last())
    }
}

/// The digit char for a value below ten.
pub open spec fn digit_char(d: nat) -> char {
    if d == 0 {
        '0'
    } else if d == 1 {
        '1'
    } else if d == 2 {
        '2'
    } else if d == 3 {
        '3'
    } else if d == 4 {
        '4'
    } else if d == 5 {
        '5'
    } else if d == 6 {
        '6'
    } else if d == 7 {
        '7'
    } else if d == 8 {
        '8'
    } else {
        '9'
    }
}

/// The canonical decimal rendering of a number: no sign, no leading zero
/// except for the number zero itself.
pub open spec fn dec_digits(n: nat) -> Seq<char>
    decreases n,
{
    if n < 10 {
        seq![digit_char(n)]
    } else {
        dec_digits(n / 10).push(digit_char(n % 10))
    }
}

/// The canonical text of one child index: its decimal value, with a trailing
/// apostrophe if and only if it is hardened. The `h` spelling is accepted by
/// the parser but never produced.
pub open spec fn index_text(ix: ChildIndex) -> Seq<char> {
    match ix {
        ChildIndex::Normal(n) => dec_digits(n as nat),
        ChildIndex::Hardened(n) => dec_digits(n as nat).push('\''),
    }
}

/// The canonical text of a whole path: `m`, then `/` and one index text per
/// index, in order. The empty path renders as `m` alone.
pub open spec fn path_text(ixs: Seq<ChildIndex>) -> Seq<char>
    decreases ixs.len(),
{
    if ixs.len() == 0 {
        seq!['m']
    } else {
        path_text(ixs.drop_last()) + seq!['/'] + index_text(ixs.last())
    }
}

/// Whether a token ends in a hardening marker.
pub open spec fn token_hardened(t: Seq<char>) -> bool {
    t.len() > 0 && is_marker(t.last())
}

/// The token with its optional trailing hardening marker stripped.
pub open spec fn token_body(t: Seq<char>) -> Seq<char> {
    if token_hardened(t) {
        t.drop_last()
    } else {
        t
    }
}

/// What parsing one child token yields.
pub enum TokenOutcome {
    /// The token is a well-formed index.
    Index(ChildIndex),
    /// The token's body is not a plain base-10 number that a 32-bit machine
    /// word can hold.
    BadFormat,
    /// The token's body is a well-formed number above the 31-bit index range;
    /// carries that number.
    BadNumber(u32),
}

/// Parsing one child token: strip an optional trailing marker, then the rest
/// must be a nonempty digit string; its value must fit the machine word and
/// then the 31-bit index range.
pub open spec fn parse_token(t: Seq<char>) -> TokenOutcome {
    let b = token_body(t);
    if b.len() == 0 || !all_digits(b) {
        TokenOutcome::BadFormat
    } else if digits_val(b) > u32::MAX {
        TokenOutcome::BadFormat
    } else if digits_val(b) > crate::child_index::MAX_CHILD_INDEX {
        TokenOutcome::BadNumber(digits_val(b) as u32)
    } else if token_hardened(t) {
        TokenOutcome::Index(ChildIndex::Hardened(digits_val(b) as u32))
    } else {
        TokenOutcome::Index(ChildIndex::Normal(digits_val(b) as u32))
    }
}

/// The position of the first `/` in `s`, or `s.len()` if there is none.
pub open spec fn first_slash(s: Seq<char>) -> int
    decreases s.len(),
{
    if s.len() == 0 {
        0
    } else if s[0] == '/' {
        0
    } else {
        1 + first_slash(s.drop_first())
    }
}

/// Splitting on `/`: always at least one token, one more token per
/// separator, empty tokens kept.
pub open spec fn split_tokens(s: Seq<char>) -> Seq<Seq<char>>
    decreases s.len(),
{
    let j = first_slash(s);
    if 0 <= j < s.len() {
        seq![s.subrange(0, j)] + split_tokens(s.subrange(j + 1, s.len() as int))
    } else {
        seq![s]
    }
}

/// What parsing a whole path text yields.
pub enum PathOutcome {
    /// The text is a well-formed path with these indices, in text order.
    Parsed(Seq<ChildIndex>),
    /// The root token is not the literal `m`; the reported error carries the
    /// whole input.
    BadPath,
    /// The first failing child token is malformed.
    BadFormat,
    /// The first failing child token is a well-formed number above the index
    /// range; carries that number.
    BadNumber(u32),
}

/// Parsing a token list, failing fast: the first failing token decides, and
/// no partial result survives a failure.
pub open spec fn parse_tokens(ts: Seq<Seq<char>>) -> PathOutcome
    decreases ts.len(),
{
    if ts.len() == 0 {
        PathOutcome::Parsed(Seq::empty())
    } else {
        match parse_token(ts[0]) {
            TokenOutcome::BadFormat => PathOutcome::BadFormat,
            TokenOutcome::BadNumber(n) => PathOutcome::BadNumber(n),
            TokenOutcome::Index(ix) => match parse_tokens(ts.drop_first()) {
                PathOutcome::Parsed(rest) => PathOutcome::Parsed(seq![ix] + rest),
                PathOutcome::BadPath => PathOutcome::BadPath,
                PathOutcome::BadFormat => PathOutcome::BadFormat,
                PathOutcome::BadNumber(n) => PathOutcome::BadNumber(n),
            },
        }
    }
}

/// Whether the token before the first `/` is exactly the literal `m`.
pub open spec fn root_is_master(s: Seq<char>) -> bool {
    s.len() >= 1 && s[0] == 'm' && (s.len() == 1 || s[1] == '/')
}

/// Parsing a whole path text: the root token must be `m`; the remaining
/// text, split on `/`, must be child tokens, each one well formed.
pub open spec fn parse_text(s: Seq<char>) -> PathOutcome {
    if !root_is_master(s) {
        PathOutcome::BadPath
    } else if s.len() == 1 {
        PathOutcome::Parsed(Seq::empty())
    } else {
        parse_tokens(split_tokens(s.subrange(2, s.len() as int)))
    }
}

/// An outcome with a prefix of already-parsed indices put in front of a
/// successful tail; failures pass through.
pub open spec fn with_prefix(prefix: Seq<ChildIndex>, o: PathOutcome) -> PathOutcome {
    match o {
        PathOutcome::Parsed(rest) => PathOutcome::Parsed(prefix + rest),
        PathOutcome::BadPath => PathOutcome::BadPath,
        PathOutcome::BadFormat => PathOutcome::BadFormat,
        PathOutcome::BadNumber(n) => PathOutcome::BadNumber(n),
    }
}

/// An empty prefix changes nothing.
pub proof fn lemma_with_prefix_id(o: PathOutcome)
    ensures
        with_prefix(Seq::<ChildIndex>::empty(), o) == o,
{
    match o {
        PathOutcome::Parsed(rest) => {
            assert(Seq::<ChildIndex>::empty() + rest =~= rest);
        },
        _ => {},
    }
}

/// Two prefixes in a row are one concatenated prefix.
pub proof fn lemma_with_prefix_assoc(a: Seq<ChildIndex>, b: Seq<ChildIndex>, o: PathOutcome)
    ensures
        with_prefix(a, with_prefix(b, o)) == with_prefix(a + b, o),
{
    match o {
        PathOutcome::Parsed(rest) => {
            assert(a + (b + rest) =~= (a + b) + rest);
        },
        _ => {},
    }
}

/// Where the first slash stands: if the chars before position `k` are
/// slash-free and `k` is a slash or the end, then `k` is the first slash
/// position.
pub proof fn lemma_first_slash_at(r: Seq<char>, k: int)
    requires
        0 <= k <= r.len(),
        forall|i: int| 0 <= i < k ==> r[i] != '/',
        k < r.len() ==> r[k] == '/',
    ensures
        first_slash(r) == k,
    decreases k,
{
    if r.len() == 0 {
    } else if k == 0 {
    } else {
        let r2 = r.drop_first();
        assert forall|i: int| 0 <= i < k - 1 implies r2[i] != '/' by {
            assert(r2[i] == r[i + 1]);
        }
        assert(k - 1 < r2.len() ==> r2[k - 1] == r[k]);
        lemma_first_slash_at(r2, k - 1);
    }
}

/// A digit string is worth at least as much as any of its prefixes.
pub proof fn lemma_digits_val_prefix(t: Seq<char>, m: int)
    requires
        0 <= m <= t.len(),
    ensures
        digits_val(t.take(m)) <= digits_val(t),
    decreases t.len() - m,
{
    if m == t.len() {
        assert(t.take(m) =~= t);
    } else {
        assert(t.take(m + 1).drop_last() =~= t.take(m));
        assert(t.take(m + 1).last() == t[m]);
        lemma_digits_val_prefix(t, m + 1);
    }
}

/// Unfolding token-list parsing by its first token.
pub proof fn lemma_parse_tokens_cons(t: Seq<char>, ts2: Seq<Seq<char>>)
    ensures
        parse_tokens(seq![t] + ts2) == (match parse_token(t) {
            TokenOutcome::Index(ix) => with_prefix(seq![ix], parse_tokens(ts2)),
            TokenOutcome::BadFormat => PathOutcome::BadFormat,
            TokenOutcome::BadNumber(n) => PathOutcome::BadNumber(n),
        }),
{
    let ts = seq![t] + ts2;
    assert(ts[0] == t);
    assert(ts.drop_first() =~= ts2);
}

/// Every index that token parsing yields respects the 31-bit invariant.
pub proof fn lemma_parse_token_valid(t: Seq<char>)
    ensures
        parse_token(t) matches TokenOutcome::Index(ix) ==> ix.is_valid(),
{
}

/// Every index in a parsed token list respects the 31-bit invariant.
pub proof fn lemma_parse_tokens_valid(ts: Seq<Seq<char>>)
    ensures
        parse_tokens(ts) matches PathOutcome::Parsed(ixs) ==> forall|k: int|
            0 <= k < ixs.len() ==> (#[trigger] ixs[k]).is_valid(),
    decreases ts.len(),
{
    if ts.len() == 0 {
    } else {
        lemma_parse_token_valid(ts[0]);
        lemma_parse_tokens_valid(ts.drop_first());
    }
}

/// Every index in a parsed path respects the 31-bit invariant.
pub proof fn lemma_parse_text_valid(s: Seq<char>)
    ensures
        parse_text(s) matches PathOutcome::Parsed(ixs) ==> forall|k: int|
            0 <= k < ixs.len() ==> (#[trigger] ixs[k]).is_valid(),
{
    if root_is_master(s) && s.len() > 1 {
        lemma_parse_tokens_valid(split_tokens(s.subrange(2, s.len() as int)));
    }
}

} // verus!
