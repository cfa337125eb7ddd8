//! The laws of the library, proved over the grammar model: formatting a
//! valid path yields text that parses back to exactly that path, the `h`
//! and `'` marker spellings parse alike, and re-parsing formatted output
//! changes nothing.

use crate::child_index::ChildIndex;
use crate::text::{
    all_digits, dec_digits, digit_char, digit_val, digits_val, first_slash, index_text, is_digit,
    is_marker, lemma_parse_text_valid, lemma_parse_tokens_cons, parse_text, parse_token,
    parse_tokens, path_text, root_is_master, split_tokens, token_body, token_hardened, PathOutcome,
    TokenOutcome,
};
use vstd::prelude::*;

verus! {

/// Every index of the sequence respects the 31-bit invariant.
pub open spec fn all_valid(ixs: Seq<ChildIndex>) -> bool {
    forall|k: int| 0 <= k < ixs.len() ==> (#[trigger] ixs[k]).is_valid()
}

/// Text is canonical when it is what the formatter renders for some valid
/// path: apostrophe markers only, no leading zeros.
pub open spec fn canonical_text(s: Seq<char>) -> bool {
    exists|ixs: Seq<ChildIndex>| all_valid(ixs) && s == path_text(ixs)
}

/// The texts of the indices, one token per index.
pub open spec fn index_texts(ixs: Seq<ChildIndex>) -> Seq<Seq<char>> {
    ixs.map_values(|ix: ChildIndex| index_text(ix))
}

/// Tokens joined by the separator; at least one token is expected.
pub open spec fn join_tokens(ts: Seq<Seq<char>>) -> Seq<char>
    decreases ts.len(),
{
    if ts.len() <= 1 {
        if ts.len() == 0 {
            Seq::empty()
        } else {
            ts[0]
        }
    } else {
        ts[0] + seq!['/'] + join_tokens(ts.drop_first())
    }
}

/// No separator anywhere in the token.
pub open spec fn slash_free(t: Seq<char>) -> bool {
    forall|i: int| 0 <= i < t.len() ==> #[trigger] t[i] != '/'
}

/// The char of a digit value is a digit char worth that value.
pub proof fn lemma_digit_char_val(d: nat)
    requires
        d < 10,
    ensures
        is_digit(digit_char(d)),
        digit_val(digit_char(d)) == d,
{
    assert(digit_val('0') == 0);
    assert(digit_val('1') == 1);
    assert(digit_val('2') == 2);
    assert(digit_val('3') == 3);
    assert(digit_val('4') == 4);
    assert(digit_val('5') == 5);
    assert(digit_val('6') == 6);
    assert(digit_val('7') == 7);
    assert(digit_val('8') == 8);
    assert(digit_val('9') == 9);
}

/// The canonical digits of a number: nonempty, digits only, worth the
/// number itself.
pub proof fn lemma_dec_digits(n: nat)
    ensures
        dec_digits(n).len() >= 1,
        all_digits(dec_digits(n)),
        digits_val(dec_digits(n)) == n,
    decreases n,
{
    if n < 10 {
        lemma_digit_char_val(n);
        let d = dec_digits(n);
        assert(d.drop_last() =~= Seq::<char>::empty());
        assert(digits_val(d) == 10 * digits_val(Seq::<char>::empty()) + digit_val(
            d.last(),
        ));
    } else {
        lemma_dec_digits(n / 10);
        lemma_digit_char_val(n % 10);
        let d = dec_digits(n);
        assert(d.drop_last() =~= dec_digits(n / 10));
        assert(d.last() == digit_char(n % 10));
        assert(digits_val(d) == 10 * (n / 10) + n % 10);
        assert(10 * (n / 10) + n % 10 == n) by (nonlinear_arith);
        assert forall|i: int| 0 <= i < d.len() implies is_digit(#[trigger] d[i]) by {
            if i < d.len() - 1 {
                assert(d[i] == dec_digits(n / 10)[i]);
            }
        }
    }
}

/// The canonical text of one valid index parses back to that index.
pub proof fn lemma_parse_index_text(ix: ChildIndex)
    requires
        ix.is_valid(),
    ensures
        parse_token(index_text(ix)) == TokenOutcome::Index(ix),
{
    match ix {
        ChildIndex::Normal(n) => {
            let t = dec_digits(n as nat);
            lemma_dec_digits(n as nat);
            assert(is_digit(t.last()));
            assert(!token_hardened(t));
            assert(token_body(t) == t);
        },
        ChildIndex::Hardened(n) => {
            let d = dec_digits(n as nat);
            let t = index_text(ix);
            lemma_dec_digits(n as nat);
            assert(t.last() == '\'');
            assert(token_hardened(t));
            assert(token_body(t) =~= d);
        },
    }
}

/// An index text never holds a separator.
pub proof fn lemma_index_text_slash_free(ix: ChildIndex)
    ensures
        slash_free(index_text(ix)),
{
    match ix {
        ChildIndex::Normal(n) => {
            lemma_dec_digits(n as nat);
        },
        ChildIndex::Hardened(n) => {
            lemma_dec_digits(n as nat);
            let d = dec_digits(n as nat);
            let t = index_text(ix);
            assert forall|i: int| 0 <= i < t.len() implies t[i] != '/' by {
                if i < d.len() {
                    assert(t[i] == d[i]);
                    assert(is_digit(d[i]));
                }
            }
        },
    }
}

/// Splitting undoes joining, for slash-free tokens.
pub proof fn lemma_split_of_join(ts: Seq<Seq<char>>)
    requires
        ts.len() >= 1,
        forall|i: int| 0 <= i < ts.len() ==> slash_free(#[trigger] ts[i]),
    ensures
        split_tokens(join_tokens(ts)) == ts,
    decreases ts.len(),
{
    let s = join_tokens(ts);
    let l0 = ts[0].len() as int;
    if ts.len() == 1 {
        assert(s == ts[0]);
        crate::text::lemma_first_slash_at(s, l0);
        assert(split_tokens(s) =~= ts);
    } else {
        let rest = join_tokens(ts.drop_first());
        assert(s == ts[0] + seq!['/'] + rest);
        assert forall|x: int| 0 <= x < l0 implies s[x] != '/' by {
            assert(s[x] == ts[0][x]);
        }
        assert(s[l0] == '/');
        crate::text::lemma_first_slash_at(s, l0);
        assert(s.subrange(0, l0) =~= ts[0]);
        assert(s.subrange(l0 + 1, s.len() as int) =~= rest);
        assert forall|i: int| 0 <= i < ts.drop_first().len() implies slash_free(
            #[trigger] ts.drop_first()[i],
        ) by {
            assert(ts.drop_first()[i] == ts[i + 1]);
        }
        lemma_split_of_join(ts.drop_first());
        assert(split_tokens(s) == seq![ts[0]] + ts.drop_first());
        assert(seq![ts[0]] + ts.drop_first() =~= ts);
    }
}

/// Joining one more token appends a separator and that token.
pub proof fn lemma_join_push(ts: Seq<Seq<char>>, u: Seq<char>)
    requires
        ts.len() >= 1,
    ensures
        join_tokens(ts.push(u)) == join_tokens(ts) + seq!['/'] + u,
    decreases ts.len(),
{
    let p = ts.push(u);
    assert(p[0] == ts[0]);
    if ts.len() == 1 {
        assert(p.drop_first() =~= seq![u]);
        assert(join_tokens(seq![u]) == u);
        assert(join_tokens(p) == ts[0] + seq!['/'] + u);
    } else {
        assert(p.drop_first() =~= ts.drop_first().push(u));
        lemma_join_push(ts.drop_first(), u);
        assert(join_tokens(p) == ts[0] + seq!['/'] + (join_tokens(ts.drop_first()) + seq!['/']
            + u));
        assert(ts[0] + seq!['/'] + (join_tokens(ts.drop_first()) + seq!['/'] + u) =~= (ts[0]
            + seq!['/'] + join_tokens(ts.drop_first())) + seq!['/'] + u);
    }
}

/// The canonical path text is the root, a separator, and the joined index
/// texts.
pub proof fn lemma_path_text_join(ixs: Seq<ChildIndex>)
    requires
        ixs.len() >= 1,
    ensures
        path_text(ixs) == seq!['m', '/'] + join_tokens(index_texts(ixs)),
    decreases ixs.len(),
{
    if ixs.len() == 1 {
        assert(ixs.drop_last() =~= Seq::<ChildIndex>::empty());
        assert(path_text(Seq::<ChildIndex>::empty()) == seq!['m']);
        assert(index_texts(ixs) =~= seq![index_text(ixs[0])]);
        assert(join_tokens(seq![index_text(ixs[0])]) == index_text(ixs[0]));
        assert(path_text(ixs) == seq!['m'] + seq!['/'] + index_text(ixs[0]));
        assert(seq!['m'] + seq!['/'] + index_text(ixs[0]) =~= seq!['m', '/'] + join_tokens(
            index_texts(ixs),
        ));
    } else {
        let pre = ixs.drop_last();
        lemma_path_text_join(pre);
        assert(index_texts(pre).len() == pre.len());
        lemma_join_push(index_texts(pre), index_text(ixs.last()));
        assert(index_texts(pre).push(index_text(ixs.last())) =~= index_texts(ixs));
        assert(path_text(ixs) == (seq!['m', '/'] + join_tokens(index_texts(pre))) + seq!['/']
            + index_text(ixs.last()));
        assert((seq!['m', '/'] + join_tokens(index_texts(pre))) + seq!['/'] + index_text(
            ixs.last(),
        ) =~= seq!['m', '/'] + (join_tokens(index_texts(pre)) + seq!['/'] + index_text(
            ixs.last(),
        )));
    }
}

/// The index texts of a valid path parse back to exactly its indices.
pub proof fn lemma_parse_index_texts(ixs: Seq<ChildIndex>)
    requires
        all_valid(ixs),
    ensures
        parse_tokens(index_texts(ixs)) == PathOutcome::Parsed(ixs),
    decreases ixs.len(),
{
    if ixs.len() == 0 {
        assert(index_texts(ixs) =~= Seq::<Seq<char>>::empty());
        assert(Seq::<ChildIndex>::empty() =~= ixs);
    } else {
        let t = index_text(ixs[0]);
        let tail = ixs.drop_first();
        assert(index_texts(tail) =~= index_texts(ixs).drop_first());
        assert(index_texts(ixs) =~= seq![t] + index_texts(tail));
        lemma_parse_index_text(ixs[0]);
        lemma_parse_tokens_cons(t, index_texts(tail));
        assert(all_valid(tail));
        lemma_parse_index_texts(tail);
        assert(parse_tokens(index_texts(ixs)) == PathOutcome::Parsed(seq![ixs[0]] + tail));
        assert(seq![ixs[0]] + tail =~= ixs);
    }
}

/// Round-trip law: the canonical text of any valid path parses back to
/// exactly that path — format then parse is the identity.
pub proof fn lemma_round_trip(ixs: Seq<ChildIndex>)
    requires
        all_valid(ixs),
    ensures
        parse_text(path_text(ixs)) == PathOutcome::Parsed(ixs),
{
    if ixs.len() == 0 {
        assert(path_text(ixs) == seq!['m']);
        assert(root_is_master(seq!['m']));
        assert(ixs =~= Seq::<ChildIndex>::empty());
    } else {
        let s = path_text(ixs);
        lemma_path_text_join(ixs);
        let ts = index_texts(ixs);
        assert(s[0] == 'm');
        assert(s[1] == '/');
        assert(s.len() >= 2);
        assert(root_is_master(s));
        assert(s.subrange(2, s.len() as int) =~= join_tokens(ts));
        assert forall|i: int| 0 <= i < ts.len() implies slash_free(#[trigger] ts[i]) by {
            lemma_index_text_slash_free(ixs[i]);
        }
        lemma_split_of_join(ts);
        lemma_parse_index_texts(ixs);
    }
}

/// Round-trip law, text first: canonical text parses, and formatting the
/// parsed path reproduces the text exactly.
pub proof fn lemma_format_of_parse_identity(s: Seq<char>)
    requires
        canonical_text(s),
    ensures
        parse_text(s) matches PathOutcome::Parsed(ixs) && path_text(ixs) == s,
{
    let ixs = choose|ixs: Seq<ChildIndex>| all_valid(ixs) && s == path_text(ixs);
    lemma_round_trip(ixs);
}

/// One position where two texts agree, or both hold a hardening marker
/// (either spelling).
pub open spec fn marker_variant_at(a: Seq<char>, b: Seq<char>, i: int) -> bool {
    a[i] == b[i] || (is_marker(a[i]) && is_marker(b[i]))
}

/// Two texts that differ at most in the spelling of hardening markers:
/// one writes `'` where the other writes `h`, or the reverse, anywhere.
pub open spec fn marker_variant(a: Seq<char>, b: Seq<char>) -> bool {
    a.len() == b.len() && forall|i: int| 0 <= i < a.len() ==> #[trigger] marker_variant_at(a, b, i)
}

proof fn lemma_first_slash_marker(a: Seq<char>, b: Seq<char>)
    requires
        marker_variant(a, b),
    ensures
        first_slash(a) == first_slash(b),
    decreases a.len(),
{
    if a.len() == 0 {
    } else {
        assert(marker_variant_at(a, b, 0));
        if a[0] == '/' || b[0] == '/' {
        } else {
            let a2 = a.drop_first();
            let b2 = b.drop_first();
            assert forall|i: int| 0 <= i < a2.len() implies marker_variant_at(a2, b2, i) by {
                assert(marker_variant_at(a, b, i + 1));
                assert(a2[i] == a[i + 1]);
                assert(b2[i] == b[i + 1]);
            }
            lemma_first_slash_marker(a2, b2);
        }
    }
}

proof fn lemma_parse_token_marker(a: Seq<char>, b: Seq<char>)
    requires
        marker_variant(a, b),
    ensures
        parse_token(a) == parse_token(b),
{
    if a.len() == 0 {
    } else {
        assert(marker_variant_at(a, b, a.len() - 1));
        assert(token_hardened(a) == token_hardened(b));
        let ba = token_body(a);
        let bb = token_body(b);
        assert(ba.len() == bb.len());
        assert forall|i: int| 0 <= i < ba.len() implies marker_variant_at(ba, bb, i) by {
            assert(marker_variant_at(a, b, i));
            assert(ba[i] == a[i]);
            assert(bb[i] == b[i]);
        }
        if all_digits(ba) || all_digits(bb) {
            assert forall|i: int| 0 <= i < ba.len() implies ba[i] == bb[i] by {
                assert(marker_variant_at(ba, bb, i));
            }
            assert(ba =~= bb);
        }
    }
}

proof fn lemma_split_marker(a: Seq<char>, b: Seq<char>)
    requires
        marker_variant(a, b),
    ensures
        split_tokens(a).len() == split_tokens(b).len(),
        forall|i: int| 0 <= i < split_tokens(a).len() ==> marker_variant(
            #[trigger] split_tokens(a)[i],
            split_tokens(b)[i],
        ),
    decreases a.len(),
{
    lemma_first_slash_marker(a, b);
    let j = first_slash(a);
    if 0 <= j < a.len() {
        let ha = a.subrange(0, j);
        let hb = b.subrange(0, j);
        assert forall|i: int| 0 <= i < ha.len() implies marker_variant_at(ha, hb, i) by {
            assert(marker_variant_at(a, b, i));
        }
        let ta = a.subrange(j + 1, a.len() as int);
        let tb = b.subrange(j + 1, b.len() as int);
        assert forall|i: int| 0 <= i < ta.len() implies marker_variant_at(ta, tb, i) by {
            assert(marker_variant_at(a, b, j + 1 + i));
        }
        lemma_split_marker(ta, tb);
        assert(split_tokens(a) == seq![ha] + split_tokens(ta));
        assert(split_tokens(b) == seq![hb] + split_tokens(tb));
        assert forall|i: int| 0 <= i < split_tokens(a).len() implies marker_variant(
            #[trigger] split_tokens(a)[i],
            split_tokens(b)[i],
        ) by {
            if i == 0 {
                assert(split_tokens(a)[0] == ha);
                assert(split_tokens(b)[0] == hb);
            } else {
                assert(split_tokens(a)[i] == split_tokens(ta)[i - 1]);
                assert(split_tokens(b)[i] == split_tokens(tb)[i - 1]);
            }
        }
    } else {
        assert(split_tokens(a) == seq![a]);
        assert(split_tokens(b) == seq![b]);
    }
}

proof fn lemma_parse_tokens_marker(ta: Seq<Seq<char>>, tb: Seq<Seq<char>>)
    requires
        ta.len() == tb.len(),
        forall|i: int| 0 <= i < ta.len() ==> marker_variant(#[trigger] ta[i], tb[i]),
    ensures
        parse_tokens(ta) == parse_tokens(tb),
    decreases ta.len(),
{
    if ta.len() == 0 {
    } else {
        assert(marker_variant(ta[0], tb[0]));
        lemma_parse_token_marker(ta[0], tb[0]);
        let ra = ta.drop_first();
        let rb = tb.drop_first();
        assert forall|i: int| 0 <= i < ra.len() implies marker_variant(
            #[trigger] ra[i],
            rb[i],
        ) by {
            assert(ra[i] == ta[i + 1]);
            assert(rb[i] == tb[i + 1]);
            assert(marker_variant(ta[i + 1], tb[i + 1]));
        }
        lemma_parse_tokens_marker(ra, rb);
    }
}

/// Marker equivalence: changing the spelling of any hardening markers
/// between `'` and `h` never changes what a text parses to.
pub proof fn lemma_marker_equivalence(a: Seq<char>, b: Seq<char>)
    requires
        marker_variant(a, b),
    ensures
        parse_text(a) == parse_text(b),
{
    if a.len() == 0 {
    } else {
        assert(marker_variant_at(a, b, 0));
        if a.len() >= 2 {
            assert(marker_variant_at(a, b, 1));
        }
        assert(root_is_master(a) == root_is_master(b));
        if root_is_master(a) && a.len() > 1 {
            let sa = a.subrange(2, a.len() as int);
            let sb = b.subrange(2, b.len() as int);
            assert forall|i: int| 0 <= i < sa.len() implies marker_variant_at(sa, sb, i) by {
                assert(marker_variant_at(a, b, 2 + i));
            }
            lemma_split_marker(sa, sb);
            lemma_parse_tokens_marker(split_tokens(sa), split_tokens(sb));
        }
    }
}

/// Idempotent re-parse: parsing the canonical text of anything that parsed
/// yields the same outcome as the first parse.
pub proof fn lemma_reparse_idempotent(s: Seq<char>)
    ensures
        parse_text(s) matches PathOutcome::Parsed(ixs) ==> parse_text(path_text(ixs))
            == parse_text(s),
{
    match parse_text(s) {
        PathOutcome::Parsed(ixs) => {
            lemma_parse_text_valid(s);
            lemma_round_trip(ixs);
        },
        _ => {},
    }
}

} // verus!
