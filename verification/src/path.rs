//! The derivation-path value itself: an ordered sequence of child indices,
//! built by parsing text or by wrapping a caller-supplied index list, and
//! rendered back to canonical text.

use crate::child_index::ChildIndex;
use crate::child_index::MAX_CHILD_INDEX;
use crate::errors::DerivationPathError;
use crate::text::{
    all_digits, dec_digits, digit_char, digits_val, index_text, lemma_digits_val_prefix,
    lemma_first_slash_at, lemma_parse_text_valid, lemma_parse_tokens_cons,
    lemma_with_prefix_assoc, lemma_with_prefix_id, parse_text, parse_token, parse_tokens,
    path_text, root_is_master, split_tokens, token_body, token_hardened, with_prefix, PathOutcome,
    TokenOutcome,
};
use vstd::prelude::*;

verus! {

/// A derivation path: the ordered walk from the master node down the key
/// tree. The empty path is the master node itself and renders as `m`.
#[derive(Debug, Clone)]
pub struct EthereumDerivationPath(Vec<ChildIndex>);

impl View for EthereumDerivationPath {
    type V = Seq<ChildIndex>;

    closed spec fn view(&self) -> Seq<ChildIndex> {
        self.0@
    }
}

impl PartialEq for EthereumDerivationPath {
    fn eq(&self, other: &Self) -> bool {
        if self.0.len() != other.0.len() {
            return false;
        }
        let mut i: usize = 0;
        while i < self.0.len()
            invariant
                i <= self.0.len(),
                self.0.len() == other.0.len(),
                forall|k: int| 0 <= k < i ==> self.0@[k] == other.0@[k],
            decreases self.0.len() - i,
        {
            if self.0[i] != other.0[i] {
                return false;
            }
            i += 1;
        }
        proof {
            assert(self@ =~= other@);
        }
        true
    }
}

impl vstd::std_specs::cmp::PartialEqSpecImpl for EthereumDerivationPath {
    open spec fn obeys_eq_spec() -> bool {
        true
    }

    open spec fn eq_spec(&self, other: &Self) -> bool {
        self@ == other@
    }
}

/// One step of the canonical rendering: taking one more index appends a
/// separator and that index's text.
pub proof fn lemma_path_text_take_step(q: Seq<ChildIndex>, i: int)
    requires
        0 <= i < q.len(),
    ensures
        path_text(q.take(i + 1)) == path_text(q.take(i)) + seq!['/'] + index_text(q[i]),
{
    let t = q.take(i + 1);
    assert(t.drop_last() =~= q.take(i));
    assert(t.last() == q[i]);
}

/// Appends the digit char of a value below ten.
fn push_digit(out: &mut String, d: u8)
    requires
        d < 10,
    ensures
        final(out)@ == old(out)@.push(digit_char(d as nat)),
{
    if d == 0 {
        out.append("0");
        proof {
            reveal_strlit("0");
            assert(out@ =~= old(out)@.push(digit_char(d as nat)));
        }
    } else if d == 1 {
        out.append("1");
        proof {
            reveal_strlit("1");
            assert(out@ =~= old(out)@.push(digit_char(d as nat)));
        }
    } else if d == 2 {
        out.append("2");
        proof {
            reveal_strlit("2");
            assert(out@ =~= old(out)@.push(digit_char(d as nat)));
        }
    } else if d == 3 {
        out.append("3");
        proof {
            reveal_strlit("3");
            assert(out@ =~= old(out)@.push(digit_char(d as nat)));
        }
    } else if d == 4 {
        out.append("4");
        proof {
            reveal_strlit("4");
            assert(out@ =~= old(out)@.push(digit_char(d as nat)));
        }
    } else if d == 5 {
        out.append("5");
        proof {
            reveal_strlit("5");
            assert(out@ =~= old(out)@.push(digit_char(d as nat)));
        }
    } else if d == 6 {
        out.append("6");
        proof {
            reveal_strlit("6");
            assert(out@ =~= old(out)@.push(digit_char(d as nat)));
        }
    } else if d == 7 {
        out.append("7");
        proof {
            reveal_strlit("7");
            assert(out@ =~= old(out)@.push(digit_char(d as nat)));
        }
    } else if d == 8 {
        out.append("8");
        proof {
            reveal_strlit("8");
            assert(out@ =~= old(out)@.push(digit_char(d as nat)));
        }
    } else {
        out.append("9");
        proof {
            reveal_strlit("9");
            assert(out@ =~= old(out)@.push(digit_char(d as nat)));
        }
    }
}

/// Appends the canonical decimal rendering of `n`.
fn push_dec(out: &mut String, n: u32)
    ensures
        final(out)@ == old(out)@ + dec_digits(n as nat),
    decreases n,
{
    if n < 10 {
        push_digit(out, n as u8);
        proof {
            assert(out@ =~= old(out)@ + dec_digits(n as nat));
        }
    } else {
        push_dec(out, n / 10);
        push_digit(out, (n % 10) as u8);
        proof {
            assert(out@ =~= old(out)@ + dec_digits(n as nat));
        }
    }
}

/// The end of the token that starts at `start`: the position of the next
/// separator, or the end of the text.
fn token_end(s: &str, start: usize, n: usize) -> (j: usize)
    requires
        n == s@.len(),
        start <= n,
    ensures
        start <= j <= n,
        forall|x: int| start <= x < j ==> s@[x] != '/',
        j < n ==> s@[j as int] == '/',
{
    let mut j = start;
    while j < n
        invariant
            start <= j <= n,
            n == s@.len(),
            forall|x: int| start <= x < j ==> s@[x] != '/',
        decreases n - j,
    {
        if s.get_char(j) == '/' {
            return j;
        }
        j += 1;
    }
    j
}

/// Parses one child token, the chars of `s` from `start` to `end`: an
/// optional trailing hardening marker, then a nonempty digit string whose
/// value fits the 31-bit index range.
fn parse_index_token(s: &str, start: usize, end: usize) -> (r: Result<
    ChildIndex,
    DerivationPathError,
>)
    requires
        start <= end <= s@.len(),
    ensures
        ({
            let t = s@.subrange(start as int, end as int);
            match parse_token(t) {
                TokenOutcome::Index(ix) => r == Ok::<ChildIndex, DerivationPathError>(ix),
                TokenOutcome::BadFormat => r == Err::<ChildIndex, DerivationPathError>(
                    DerivationPathError::InvalidChildNumberFormat,
                ),
                TokenOutcome::BadNumber(m) => r == Err::<ChildIndex, DerivationPathError>(
                    DerivationPathError::InvalidChildNumber(m),
                ),
            }
        }),
{
    let ghost t = s@.subrange(start as int, end as int);
    let hardened = if end > start {
        let c = s.get_char(end - 1);
        c == '\'' || c == 'h'
    } else {
        false
    };
    let body_end = if hardened {
        end - 1
    } else {
        end
    };
    proof {
        assert(hardened == token_hardened(t));
        if hardened {
            assert(t.drop_last() =~= s@.subrange(start as int, body_end as int));
        } else {
            assert(t =~= s@.subrange(start as int, body_end as int));
        }
        assert(token_body(t) == s@.subrange(start as int, body_end as int));
    }
    let ghost body = s@.subrange(start as int, body_end as int);
    if body_end == start {
        proof {
            assert(body.len() == 0);
        }
        return Err(DerivationPathError::InvalidChildNumberFormat);
    }
    let mut k = start;
    let mut val: u64 = 0;
    while k < body_end
        invariant
            start <= k <= body_end <= end <= s@.len(),
            t == s@.subrange(start as int, end as int),
            body == s@.subrange(start as int, body_end as int),
            body == token_body(t),
            hardened == token_hardened(t),
            body.len() > 0,
            all_digits(s@.subrange(start as int, k as int)),
            val == digits_val(s@.subrange(start as int, k as int)),
            val <= u32::MAX,
        decreases body_end - k,
    {
        let c = s.get_char(k);
        let u = c as u32;
        if u < 48 || u > 57 {
            proof {
                assert(body[k - start] == s@[k as int]);
                assert(!all_digits(body));
            }
            return Err(DerivationPathError::InvalidChildNumberFormat);
        }
        val = val * 10 + ((u - 48) as u64);
        proof {
            let pre = s@.subrange(start as int, k as int);
            let cur = s@.subrange(start as int, k as int + 1);
            assert(cur.drop_last() =~= pre);
            assert(cur.last() == s@[k as int]);
            assert(val == digits_val(cur));
            assert(all_digits(cur));
        }
        if val > 0xffff_ffff {
            proof {
                if all_digits(body) {
                    assert(body.take(k + 1 - start) =~= s@.subrange(start as int, k as int + 1));
                    lemma_digits_val_prefix(body, k + 1 - start);
                }
            }
            return Err(DerivationPathError::InvalidChildNumberFormat);
        }
        k += 1;
    }
    let val32 = val as u32;
    proof {
        assert(body.len() > 0);
        assert(all_digits(body));
        assert(digits_val(body) == val32);
    }
    if val32 > MAX_CHILD_INDEX {
        return Err(DerivationPathError::InvalidChildNumber(val32));
    }
    if hardened {
        Ok(ChildIndex::Hardened(val32))
    } else {
        Ok(ChildIndex::Normal(val32))
    }
}

impl EthereumDerivationPath {
    /// Parses a textual path: the token before the first `/` must be the
    /// literal `m`, and every later token must be a child index, a nonempty
    /// digit string with an optional trailing `'` or `h` marker. Parsing
    /// fails fast: the first bad token decides the error, and a bad root
    /// reports the whole input.
    pub fn from_str(path: &str) -> (r: Result<EthereumDerivationPath, DerivationPathError>)
        ensures
            parse_text(path@) matches PathOutcome::Parsed(ixs) ==> (r matches Ok(p) && p@ == ixs),
            r matches Ok(p) ==> forall|k: int| 0 <= k < p@.len() ==> (#[trigger] p@[k]).is_valid(),
            parse_text(path@) is BadPath ==> (r matches Err(e) && (e matches
                DerivationPathError::InvalidDerivationPath(orig) && orig@ == path@)),
            parse_text(path@) is BadFormat ==> r == Err::<EthereumDerivationPath,
                DerivationPathError,
            >(DerivationPathError::InvalidChildNumberFormat),
            parse_text(path@) matches PathOutcome::BadNumber(m) ==> r == Err::<
                EthereumDerivationPath,
                DerivationPathError,
            >(DerivationPathError::InvalidChildNumber(m)),
    {
        let n = path.unicode_len();
        if n == 0 {
            return Err(DerivationPathError::InvalidDerivationPath(path.to_owned()));
        }
        if path.get_char(0) != 'm' {
            return Err(DerivationPathError::InvalidDerivationPath(path.to_owned()));
        }
        if n == 1 {
            let v: Vec<ChildIndex> = Vec::new();
            proof {
                assert(v@ =~= Seq::<ChildIndex>::empty());
            }
            return Ok(EthereumDerivationPath(v));
        }
        if path.get_char(1) != '/' {
            return Err(DerivationPathError::InvalidDerivationPath(path.to_owned()));
        }
        let mut v: Vec<ChildIndex> = Vec::new();
        let mut i: usize = 2;
        proof {
            assert(root_is_master(path@));
            assert(v@ =~= Seq::<ChildIndex>::empty());
            lemma_with_prefix_id(parse_tokens(split_tokens(path@.subrange(2, n as int))));
        }
        loop
            invariant
                2 <= i <= n,
                n == path@.len(),
                parse_text(path@) == with_prefix(
                    v@,
                    parse_tokens(split_tokens(path@.subrange(i as int, n as int))),
                ),
            decreases n - i,
        {
            let ghost rest = path@.subrange(i as int, n as int);
            let j = token_end(path, i, n);
            let ghost t = path@.subrange(i as int, j as int);
            proof {
                assert forall|x: int| 0 <= x < j - i implies rest[x] != '/' by {
                    assert(rest[x] == path@[i + x]);
                }
                if j < n {
                    assert(rest[j - i] == path@[j as int]);
                }
                lemma_first_slash_at(rest, j - i);
                assert(rest.subrange(0, j - i) =~= t);
                if j < n {
                    assert(rest.subrange(j - i + 1, rest.len() as int) =~= path@.subrange(
                        j + 1,
                        n as int,
                    ));
                    assert(split_tokens(rest) == seq![t] + split_tokens(
                        path@.subrange(j + 1, n as int),
                    ));
                } else {
                    assert(rest =~= t);
                    assert(split_tokens(rest) == seq![t]);
                    assert(seq![t] =~= seq![t] + Seq::<Seq<char>>::empty());
                }
                lemma_parse_tokens_cons(
                    t,
                    if j < n {
                        split_tokens(path@.subrange(j + 1, n as int))
                    } else {
                        Seq::<Seq<char>>::empty()
                    },
                );
            }
            match parse_index_token(path, i, j) {
                Err(e) => {
                    return Err(e);
                },
                Ok(ix) => {
                    let ghost vpre = v@;
                    v.push(ix);
                    proof {
                        assert(v@ =~= vpre + seq![ix]);
                        lemma_with_prefix_assoc(
                            vpre,
                            seq![ix],
                            if j < n {
                                parse_tokens(split_tokens(path@.subrange(j + 1, n as int)))
                            } else {
                                parse_tokens(Seq::<Seq<char>>::empty())
                            },
                        );
                    }
                    if j == n {
                        proof {
                            lemma_with_prefix_id(PathOutcome::Parsed(Seq::<ChildIndex>::empty()));
                            assert(v@ + Seq::<ChildIndex>::empty() =~= v@);
                            lemma_parse_text_valid(path@);
                        }
                        return Ok(EthereumDerivationPath(v));
                    }
                    i = j + 1;
                },
            }
        }
    }

    /// The canonical text of the path: `m`, then `/` and the decimal index
    /// for each step in order, hardened steps marked with an apostrophe.
    pub fn to_text(&self) -> (r: String)
        ensures
            r@ == path_text(self@),
    {
        let mut out = String::new();
        out.append("m");
        proof {
            reveal_strlit("m");
            assert(out@ =~= path_text(self@.take(0)));
        }
        let mut idx: usize = 0;
        while idx < self.0.len()
            invariant
                idx <= self.0.len(),
                out@ == path_text(self@.take(idx as int)),
            decreases self.0.len() - idx,
        {
            out.append("/");
            match self.0[idx] {
                ChildIndex::Normal(n) => {
                    push_dec(&mut out, n);
                },
                ChildIndex::Hardened(n) => {
                    push_dec(&mut out, n);
                    out.append("'");
                },
            }
            proof {
                reveal_strlit("/");
                reveal_strlit("'");
                lemma_path_text_take_step(self@, idx as int);
                assert(out@ =~= path_text(self@.take(idx as int + 1)));
            }
            idx += 1;
        }
        proof {
            assert(self@.take(self.0.len() as int) =~= self@);
        }
        out
    }

    /// Hands out a copy of the index sequence, in path order; always
    /// succeeds.
    pub fn to_vec(&self) -> (r: Result<Vec<ChildIndex>, DerivationPathError>)
        ensures
            r matches Ok(v) && v@ == self@,
    {
        let mut v: Vec<ChildIndex> = Vec::new();
        let mut i: usize = 0;
        while i < self.0.len()
            invariant
                i <= self.0.len(),
                v@ == self@.take(i as int),
            decreases self.0.len() - i,
        {
            v.push(self.0[i]);
            proof {
                assert(self@.take(i as int).push(self@[i as int]) =~= self@.take(i as int + 1));
            }
            i += 1;
        }
        proof {
            assert(self@.take(self.0.len() as int) =~= self@);
        }
        Ok(v)
    }

    /// Wraps a caller-supplied index sequence, in order, without validation;
    /// always succeeds.
    pub fn from_vec(path: &Vec<ChildIndex>) -> (r: Result<EthereumDerivationPath, DerivationPathError>)
        ensures
            r matches Ok(p) && p@ == path@,
    {
        let mut v: Vec<ChildIndex> = Vec::new();
        let mut i: usize = 0;
        while i < path.len()
            invariant
                i <= path.len(),
                v@ == path@.take(i as int),
            decreases path.len() - i,
        {
            v.push(path[i]);
            proof {
                assert(path@.take(i as int).push(path@[i as int]) =~= path@.take(i as int + 1));
            }
            i += 1;
        }
        proof {
            assert(path@.take(path.len() as int) =~= path@);
        }
        Ok(EthereumDerivationPath(v))
    }

    /// Wraps an owned index sequence, in order, without validation; always
    /// succeeds.
    pub fn try_from(path: Vec<ChildIndex>) -> (r: Result<EthereumDerivationPath, DerivationPathError>)
        ensures
            r matches Ok(p) && p@ == path@,
    {
        Ok(EthereumDerivationPath(path))
    }

    /// Wraps a borrowed index slice, in order, without validation; always
    /// succeeds.
    pub fn try_from_slice(path: &[ChildIndex]) -> (r: Result<
        EthereumDerivationPath,
        DerivationPathError,
    >)
        ensures
            r matches Ok(p) && p@ == path@,
    {
        let mut v: Vec<ChildIndex> = Vec::new();
        let mut i: usize = 0;
        while i < path.len()
            invariant
                i <= path.len(),
                v@ == path@.take(i as int),
            decreases path.len() - i,
        {
            v.push(path[i]);
            proof {
                assert(path@.take(i as int).push(path@[i as int]) =~= path@.take(i as int + 1));
            }
            i += 1;
        }
        proof {
            assert(path@.take(path.len() as int) =~= path@);
        }
        Ok(EthereumDerivationPath(v))
    }
}

} // verus!
