//! The code generator: deterministic rendering of canonical expressions into
//! C-like source text.
//!
//! Sums and products are never emitted in map order.  Their entries are
//! partitioned by coefficient sign, each group is sorted lexicographically by
//! the entry's *rendered text* (byte order of its UTF-8 encoding), and only
//! then joined — so the output is a pure function of the expression, whatever
//! order its terms were built in.  Field-domain expressions render in one of
//! two modes: a flat element-wise loop over the grid when no transform is
//! reachable, or an explicit transform call otherwise.

use vstd::prelude::*;
use vstd::string::{StrSliceExecFns, StringExecFns, StringSliceAdditionalSpecFns};
use vstd::utf8::encode_utf8;
use crate::abelian::entries_wf;
use crate::expr::{Domain, Expr, Node, Store, node_dom, node_wf_at};
use crate::search::{spec_cfft, spec_contains_ifft};

verus! {

broadcast use vstd::string::group_string_axioms;

/// The decimal rendering of one digit.
pub open spec fn digit_text(d: int) -> Seq<char> {
    if d == 0 {
        "0"@
    } else if d == 1 {
        "1"@
    } else if d == 2 {
        "2"@
    } else if d == 3 {
        "3"@
    } else if d == 4 {
        "4"@
    } else if d == 5 {
        "5"@
    } else if d == 6 {
        "6"@
    } else if d == 7 {
        "7"@
    } else if d == 8 {
        "8"@
    } else if d == 9 {
        "9"@
    } else {
        Seq::empty()
    }
}

/// The decimal rendering of a nonnegative integer.
pub open spec fn dec_nat(n: int) -> Seq<char>
    decreases n,
{
    if n < 10 {
        digit_text(n)
    } else {
        dec_nat(n / 10) + digit_text(n % 10)
    }
}

/// The decimal rendering of an integer, with a leading minus sign when
/// negative.
pub open spec fn dec_int(n: int) -> Seq<char> {
    if n < 0 {
        "-"@ + dec_nat(-n)
    } else {
        dec_nat(n)
    }
}

/// Append the decimal rendering of `n`.
fn push_dec_u64(out: &mut String, n: u64)
    ensures
        final(out)@ == old(out)@ + dec_nat(n as int),
    decreases n,
{
    if n >= 10 {
        push_dec_u64(out, n / 10);
    }
    let d = n % 10;
    let s: &str = if d == 0 {
        "0"
    } else if d == 1 {
        "1"
    } else if d == 2 {
        "2"
    } else if d == 3 {
        "3"
    } else if d == 4 {
        "4"
    } else if d == 5 {
        "5"
    } else if d == 6 {
        "6"
    } else if d == 7 {
        "7"
    } else {
        if d == 8 {
            "8"
        } else {
            "9"
        }
    };
    out.append(s);
    proof {
        assert(s@ == digit_text(n as int % 10));
        if n < 10 {
            assert(n as int % 10 == n as int);
            assert(final(out)@ =~= old(out)@ + dec_nat(n as int));
        } else {
            assert(final(out)@ =~= old(out)@ + (dec_nat(n as int / 10) + digit_text(
                n as int % 10,
            )));
        }
    }
}

/// Append the decimal rendering of `n`, sign included.
fn push_dec_i64(out: &mut String, n: i64)
    requires
        n > i64::MIN,
    ensures
        final(out)@ == old(out)@ + dec_int(n as int),
{
    if n < 0 {
        out.append("-");
        push_dec_u64(out, (-n) as u64);
        proof {
            assert(final(out)@ =~= old(out)@ + ("-"@ + dec_nat(-(n as int))));
        }
    } else {
        push_dec_u64(out, n as u64);
    }
}

/// Byte-lexicographic order.
pub open spec fn lex_le(a: Seq<u8>, b: Seq<u8>) -> bool
    decreases a.len(),
{
    if a.len() == 0 {
        true
    } else if b.len() == 0 {
        false
    } else if a[0] < b[0] {
        true
    } else if a[0] > b[0] {
        false
    } else {
        lex_le(a.drop_first(), b.drop_first())
    }
}

/// The rendering order on text: byte-lexicographic order of the UTF-8
/// encodings.
pub open spec fn text_le(x: Seq<char>, y: Seq<char>) -> bool {
    lex_le(encode_utf8(x), encode_utf8(y))
}

/// Equal prefixes do not affect the order of what follows.
proof fn lemma_lex_skip(x: Seq<u8>, y: Seq<u8>, i: int)
    requires
        0 <= i <= x.len(),
        i <= y.len(),
        forall|j: int| 0 <= j < i ==> x[j] == y[j],
    ensures
        lex_le(x, y) == lex_le(x.skip(i), y.skip(i)),
    decreases i,
{
    if i > 0 {
        assert(x[0] == y[0]);
        assert(x.drop_first() =~= x.skip(1));
        assert(y.drop_first() =~= y.skip(1));
        lemma_lex_skip(x.skip(1), y.skip(1), i - 1);
        assert(x.skip(1).skip(i - 1) =~= x.skip(i));
        assert(y.skip(1).skip(i - 1) =~= y.skip(i));
    } else {
        assert(x.skip(0) =~= x);
        assert(y.skip(0) =~= y);
    }
}

/// Decide the rendering order of two strings.
#[verifier::loop_isolation(false)]
fn str_le(a: &str, b: &str) -> (r: bool)
    ensures
        r == text_le(a@, b@),
{
    let ab = a.as_bytes();
    let bb = b.as_bytes();
    let an = ab.len();
    let bn = bb.len();
    let mut i: usize = 0;
    while i < an && i < bn && ab[i] == bb[i]
        invariant
            i <= an,
            i <= bn,
            an == ab@.len(),
            bn == bb@.len(),
            forall|j: int| 0 <= j < i ==> ab@[j] == bb@[j],
        decreases an - i,
    {
        i = i + 1;
    }
    proof {
        lemma_lex_skip(ab@, bb@, i as int);
    }
    if i == an {
        proof {
            assert(ab@.skip(i as int).len() == 0);
        }
        true
    } else if i == bn {
        proof {
            assert(bb@.skip(i as int).len() == 0);
            assert(ab@.skip(i as int).len() > 0);
        }
        false
    } else {
        proof {
            assert(ab@.skip(i as int)[0] == ab@[i as int]);
            assert(bb@.skip(i as int)[0] == bb@[i as int]);
        }
        ab[i] < bb[i]
    }
}

/// The spec-level reading of a rendered entry list: each pair's text and its
/// coefficient.
pub open spec fn view_pairs(s: Seq<(String, i64)>) -> Seq<(Seq<char>, int)> {
    s.map_values(|p: (String, i64)| (p.0@, p.1 as int))
}

/// Stable insertion into a text-sorted list: the new entry goes after every
/// entry whose text is not greater.
pub open spec fn sorted_insert(s: Seq<(Seq<char>, int)>, x: (Seq<char>, int)) -> Seq<
    (Seq<char>, int),
>
    decreases s.len(),
{
    if s.len() == 0 {
        seq![x]
    } else if text_le(s.last().0, x.0) {
        s.push(x)
    } else {
        sorted_insert(s.drop_last(), x).push(s.last())
    }
}

/// Stable insertion sort by rendered text.
pub open spec fn sort_pairs(s: Seq<(Seq<char>, int)>) -> Seq<(Seq<char>, int)>
    decreases s.len(),
{
    if s.len() == 0 {
        s
    } else {
        sorted_insert(sort_pairs(s.drop_last()), s.last())
    }
}

/// Where the stable insertion lands: just after the last entry that is not
/// greater than the new one.
proof fn lemma_sorted_insert_at(s: Seq<(Seq<char>, int)>, x: (Seq<char>, int), j: int)
    requires
        0 <= j <= s.len(),
        j > 0 ==> text_le(s[j - 1].0, x.0),
        forall|t: int| j <= t < s.len() ==> !text_le(#[trigger] s[t].0, x.0),
    ensures
        sorted_insert(s, x) == s.take(j) + seq![x] + s.skip(j),
    decreases s.len(),
{
    if s.len() == 0 {
        assert(sorted_insert(s, x) =~= s.take(j) + seq![x] + s.skip(j));
    } else if text_le(s.last().0, x.0) {
        assert(j == s.len());
        assert(s.push(x) =~= s.take(j) + seq![x] + s.skip(j));
    } else {
        assert(j < s.len());
        lemma_sorted_insert_at(s.drop_last(), x, j);
        assert(s.drop_last().take(j) =~= s.take(j));
        assert(sorted_insert(s, x) =~= s.take(j) + seq![x] + s.skip(j)) by {
            assert(sorted_insert(s, x) == (s.take(j) + seq![x] + s.drop_last().skip(j)).push(
                s.last(),
            ));
        }
    }
}

/// Insert one entry into a text-sorted list, keeping it sorted and stable.
#[verifier::loop_isolation(false)]
fn insert_by_text(out: &mut Vec<(String, i64)>, x: (String, i64))
    requires
        x.1 > i64::MIN,
        forall|u: int| 0 <= u < old(out)@.len() ==> old(out)@[u].1 > i64::MIN,
    ensures
        view_pairs(final(out)@) == sorted_insert(view_pairs(old(out)@), (x.0@, x.1 as int)),
        forall|t: int| 0 <= t < final(out)@.len() ==> final(out)@[t].1 > i64::MIN,
{
    let ghost xv = (x.0@, x.1 as int);
    let mut j: usize = out.len();
    while j > 0 && !str_le(&out[j - 1].0, &x.0)
        invariant
            j <= out@.len(),
            *out == *old(out),
            forall|t: int|
                j <= t < out@.len() ==> !text_le(#[trigger] view_pairs(out@)[t].0, xv.0),
        decreases j,
    {
        proof {
            assert(view_pairs(out@)[j - 1].0 == out@[j - 1].0@);
        }
        j = j - 1;
    }
    proof {
        if j > 0 {
            assert(text_le(view_pairs(out@)[j - 1].0, xv.0));
        }
        lemma_sorted_insert_at(view_pairs(out@), xv, j as int);
    }
    out.insert(j, x);
    proof {
        assert(view_pairs(final(out)@) =~= view_pairs(old(out)@).take(j as int) + seq![xv]
            + view_pairs(old(out)@).skip(j as int));
        assert forall|t: int| 0 <= t < final(out)@.len() implies final(out)@[t].1
            > i64::MIN by {
            if t < j {
                assert(final(out)@[t] == old(out)@[t]);
            } else if t > j {
                assert(final(out)@[t] == old(out)@[t - 1]);
            }
        }
    }
}

/// Sort an entry list by rendered text, stably.
#[verifier::loop_isolation(false)]
fn sort_by_text(v: Vec<(String, i64)>) -> (r: Vec<(String, i64)>)
    requires
        forall|u: int| 0 <= u < v@.len() ==> v@[u].1 > i64::MIN,
    ensures
        view_pairs(r@) == sort_pairs(view_pairs(v@)),
        forall|t: int| 0 <= t < r@.len() ==> r@[t].1 > i64::MIN,
{
    let n = v.len();
    let mut out: Vec<(String, i64)> = Vec::new();
    let mut i: usize = 0;
    while i < n
        invariant
            i <= n,
            n == v@.len(),
            view_pairs(out@) == sort_pairs(view_pairs(v@.take(i as int))),
            forall|t: int| 0 <= t < out@.len() ==> out@[t].1 > i64::MIN,
        decreases n - i,
    {
        let x = (v[i].0.clone(), v[i].1);
        proof {
            assert(x.0@ == v@[i as int].0@);
            assert(view_pairs(v@.take(i + 1)).drop_last() =~= view_pairs(v@.take(i as int)));
            assert(view_pairs(v@.take(i + 1)).last() == (v@[i as int].0@, v@[i as int].1 as int));
        }
        insert_by_text(&mut out, x);
        i = i + 1;
    }
    proof {
        assert(v@.take(n as int) =~= v@);
    }
    out
}

/// The entries with positive coefficient, in order.
pub open spec fn filter_pos(s: Seq<(Seq<char>, int)>) -> Seq<(Seq<char>, int)>
    decreases s.len(),
{
    if s.len() == 0 {
        s
    } else {
        let sub = filter_pos(s.drop_last());
        if s.last().1 > 0 {
            sub.push(s.last())
        } else {
            sub
        }
    }
}

/// The entries with negative coefficient, in order.
pub open spec fn filter_neg(s: Seq<(Seq<char>, int)>) -> Seq<(Seq<char>, int)>
    decreases s.len(),
{
    if s.len() == 0 {
        s
    } else {
        let sub = filter_neg(s.drop_last());
        if s.last().1 < 0 {
            sub.push(s.last())
        } else {
            sub
        }
    }
}

/// Split an entry list by coefficient sign, keeping each group's order.
#[verifier::loop_isolation(false)]
fn partition_by_sign(v: &Vec<(String, i64)>) -> (r: (Vec<(String, i64)>, Vec<(String, i64)>))
    requires
        forall|u: int| 0 <= u < v@.len() ==> v@[u].1 > i64::MIN,
    ensures
        view_pairs(r.0@) == filter_pos(view_pairs(v@)),
        view_pairs(r.1@) == filter_neg(view_pairs(v@)),
        forall|t: int| 0 <= t < r.0@.len() ==> r.0@[t].1 > i64::MIN,
        forall|t: int| 0 <= t < r.1@.len() ==> r.1@[t].1 > i64::MIN,
{
    let n = v.len();
    let mut p: Vec<(String, i64)> = Vec::new();
    let mut m: Vec<(String, i64)> = Vec::new();
    let mut i: usize = 0;
    while i < n
        invariant
            i <= n,
            n == v@.len(),
            view_pairs(p@) == filter_pos(view_pairs(v@.take(i as int))),
            view_pairs(m@) == filter_neg(view_pairs(v@.take(i as int))),
            forall|t: int| 0 <= t < p@.len() ==> p@[t].1 > i64::MIN,
            forall|t: int| 0 <= t < m@.len() ==> m@[t].1 > i64::MIN,
        decreases n - i,
    {
        proof {
            assert(view_pairs(v@.take(i + 1)).drop_last() =~= view_pairs(v@.take(i as int)));
            assert(view_pairs(v@.take(i + 1)).last() == (v@[i as int].0@, v@[i as int].1 as int));
        }
        let x = (v[i].0.clone(), v[i].1);
        proof {
            assert(x.0@ == v@[i as int].0@);
        }
        if x.1 > 0 {
            p.push(x);
            proof {
                assert(view_pairs(p@) =~= filter_pos(view_pairs(v@.take(i + 1))));
            }
        } else if x.1 < 0 {
            m.push(x);
            proof {
                assert(view_pairs(m@) =~= filter_neg(view_pairs(v@.take(i + 1))));
            }
        }
        i = i + 1;
    }
    proof {
        assert(v@.take(n as int) =~= v@);
    }
    (p, m)
}

/// How one sorted entry renders inside a group.
#[derive(Clone, Copy, Debug, PartialEq, Eq, Structural)]
pub enum CoeffStyle {
    /// A positive summand: `c * term`, bare `term` when `c` is one, bare
    /// numeral when the term is the unit element.
    Plus,
    /// A negated summand (rendered under an outer minus): magnitudes only.
    Minus,
    /// A product factor: bare term for exponent magnitude one, explicit
    /// self-multiplication for two, a power call otherwise.
    Power,
}

/// The rendering of one entry.
pub open spec fn entry_text(style: CoeffStyle, x: Seq<char>, c: int) -> Seq<char> {
    match style {
        CoeffStyle::Plus => if x == "1"@ {
            dec_int(c)
        } else if c == 1 {
            x
        } else {
            dec_int(c) + " * "@ + x
        },
        CoeffStyle::Minus => if x == "1"@ {
            dec_int(-c)
        } else if c == -1 {
            x
        } else {
            dec_int(-c) + " * "@ + x
        },
        CoeffStyle::Power => {
            let a = if c >= 0 {
                c
            } else {
                -c
            };
            if x == "1"@ || a == 1 {
                x
            } else if a == 2 {
                x + " * "@ + x
            } else {
                "pow("@ + x + ", "@ + dec_int(a) + ")"@
            }
        },
    }
}

/// The rendering of a whole group, its entries joined by `sep`.
pub open spec fn join_entries(style: CoeffStyle, s: Seq<(Seq<char>, int)>, sep: Seq<char>) -> Seq<
    char,
>
    decreases s.len(),
{
    if s.len() == 0 {
        Seq::empty()
    } else if s.len() == 1 {
        entry_text(style, s[0].0, s[0].1)
    } else {
        join_entries(style, s.drop_last(), sep) + sep + entry_text(style, s.last().0, s.last().1)
    }
}

/// Append the rendering of one entry.
fn push_entry(out: &mut String, style: CoeffStyle, x: &String, c: i64)
    requires
        c > i64::MIN,
    ensures
        final(out)@ == old(out)@ + entry_text(style, x@, c as int),
{
    let one = String::from_str("1");
    let is_unit = x.eq(&one);
    proof {
        assert(is_unit == (x@ == "1"@));
    }
    match style {
        CoeffStyle::Plus => {
            if is_unit {
                push_dec_i64(out, c);
            } else if c == 1 {
                out.append(x.as_str());
            } else {
                push_dec_i64(out, c);
                out.append(" * ");
                out.append(x.as_str());
                proof {
                    assert(final(out)@ =~= old(out)@ + (dec_int(c as int) + " * "@ + x@));
                }
            }
        },
        CoeffStyle::Minus => {
            if is_unit {
                push_dec_i64(out, -c);
            } else if c == -1 {
                out.append(x.as_str());
            } else {
                push_dec_i64(out, -c);
                out.append(" * ");
                out.append(x.as_str());
                proof {
                    assert(final(out)@ =~= old(out)@ + (dec_int(-(c as int)) + " * "@ + x@));
                }
            }
        },
        CoeffStyle::Power => {
            let a: i64 = if c >= 0 {
                c
            } else {
                -c
            };
            if is_unit || a == 1 {
                out.append(x.as_str());
            } else if a == 2 {
                out.append(x.as_str());
                out.append(" * ");
                out.append(x.as_str());
                proof {
                    assert(final(out)@ =~= old(out)@ + (x@ + " * "@ + x@));
                }
            } else {
                out.append("pow(");
                out.append(x.as_str());
                out.append(", ");
                push_dec_i64(out, a);
                out.append(")");
                proof {
                    assert(final(out)@ =~= old(out)@ + ("pow("@ + x@ + ", "@ + dec_int(a as int)
                        + ")"@));
                }
            }
        },
    }
}

/// Render a whole sorted group.
#[verifier::loop_isolation(false)]
fn render_group(style: CoeffStyle, sep: &str, parts: &Vec<(String, i64)>) -> (r: String)
    requires
        forall|j: int| 0 <= j < parts@.len() ==> parts@[j].1 > i64::MIN,
    ensures
        r@ == join_entries(style, view_pairs(parts@), sep@),
{
    let n = parts.len();
    let mut out = String::new();
    let mut i: usize = 0;
    while i < n
        invariant
            i <= n,
            n == parts@.len(),
            out@ == join_entries(style, view_pairs(parts@.take(i as int)), sep@),
        decreases n - i,
    {
        if i > 0 {
            out.append(sep);
        }
        push_entry(&mut out, style, &parts[i].0, parts[i].1);
        proof {
            let vp = view_pairs(parts@.take(i + 1));
            assert(vp.drop_last() =~= view_pairs(parts@.take(i as int)));
            assert(vp.last() == (parts@[i as int].0@, parts@[i as int].1 as int));
            if i == 0 {
                assert(out@ =~= join_entries(style, vp, sep@));
            } else {
                assert(out@ =~= join_entries(style, vp.drop_last(), sep@) + sep@ + entry_text(
                    style,
                    vp.last().0,
                    vp.last().1,
                ));
            }
        }
        i = i + 1;
    }
    proof {
        assert(parts@.take(n as int) =~= parts@);
    }
    out
}

/// The deterministic rendering of a sum's entry texts: positive and negative
/// groups, each sorted by rendered text, combined as `P`, `-N` or `P - N`,
/// and `0` when empty.
pub open spec fn add_render(texts: Seq<(Seq<char>, int)>) -> Seq<char> {
    let p = sort_pairs(filter_pos(texts));
    let n = sort_pairs(filter_neg(texts));
    if p.len() == 0 && n.len() == 0 {
        "0"@
    } else if n.len() == 0 {
        join_entries(CoeffStyle::Plus, p, " + "@)
    } else if p.len() == 0 {
        "-"@ + join_entries(CoeffStyle::Minus, n, " + "@)
    } else {
        join_entries(CoeffStyle::Plus, p, " + "@) + " - "@ + join_entries(
            CoeffStyle::Minus,
            n,
            " + "@,
        )
    }
}

/// The deterministic rendering of a product's entry texts: numerator and
/// denominator groups, each sorted by rendered text, combined as `N`,
/// `1 / (D)` or `N / (D)`, and `1` when empty.
pub open spec fn mul_render(texts: Seq<(Seq<char>, int)>) -> Seq<char> {
    let nm = sort_pairs(filter_pos(texts));
    let dn = sort_pairs(filter_neg(texts));
    if nm.len() == 0 && dn.len() == 0 {
        "1"@
    } else if dn.len() == 0 {
        join_entries(CoeffStyle::Power, nm, " * "@)
    } else if nm.len() == 0 {
        "1 / ("@ + join_entries(CoeffStyle::Power, dn, " * "@) + ")"@
    } else {
        join_entries(CoeffStyle::Power, nm, " * "@) + " / ("@ + join_entries(
            CoeffStyle::Power,
            dn,
            " * "@,
        ) + ")"@
    }
}

/// Render a sum from its entry texts.
fn render_add_texts(texts: Vec<(String, i64)>) -> (r: String)
    requires
        forall|j: int| 0 <= j < texts@.len() ==> texts@[j].1 > i64::MIN,
    ensures
        r@ == add_render(view_pairs(texts@)),
{
    let (pv, nv) = partition_by_sign(&texts);
    let p = sort_by_text(pv);
    let n = sort_by_text(nv);
    if p.len() == 0 && n.len() == 0 {
        String::from_str("0")
    } else if n.len() == 0 {
        render_group(CoeffStyle::Plus, " + ", &p)
    } else if p.len() == 0 {
        let mut out = String::from_str("-");
        let g = render_group(CoeffStyle::Minus, " + ", &n);
        out.append(g.as_str());
        proof {
            assert(out@ =~= "-"@ + g@);
        }
        out
    } else {
        let mut out = render_group(CoeffStyle::Plus, " + ", &p);
        out.append(" - ");
        let g = render_group(CoeffStyle::Minus, " + ", &n);
        out.append(g.as_str());
        proof {
            assert(out@ =~= add_render(view_pairs(texts@)));
        }
        out
    }
}

/// Render a product from its entry texts.
fn render_mul_texts(texts: Vec<(String, i64)>) -> (r: String)
    requires
        forall|j: int| 0 <= j < texts@.len() ==> texts@[j].1 > i64::MIN,
    ensures
        r@ == mul_render(view_pairs(texts@)),
{
    let (pv, nv) = partition_by_sign(&texts);
    let nm = sort_by_text(pv);
    let dn = sort_by_text(nv);
    if nm.len() == 0 && dn.len() == 0 {
        String::from_str("1")
    } else if dn.len() == 0 {
        render_group(CoeffStyle::Power, " * ", &nm)
    } else if nm.len() == 0 {
        let mut out = String::from_str("1 / (");
        let g = render_group(CoeffStyle::Power, " * ", &dn);
        out.append(g.as_str());
        out.append(")");
        proof {
            assert(out@ =~= "1 / ("@ + g@ + ")"@);
        }
        out
    } else {
        let mut out = render_group(CoeffStyle::Power, " * ", &nm);
        out.append(" / (");
        let g = render_group(CoeffStyle::Power, " * ", &dn);
        out.append(g.as_str());
        out.append(")");
        proof {
            assert(out@ =~= mul_render(view_pairs(texts@)));
        }
        out
    }
}

/// The rendered text and coefficient of each entry, in map order.
pub open spec fn spec_texts(store: Store, s: Seq<(Expr, i64)>, bound: int) -> Seq<
    (Seq<char>, int),
>
    decreases bound, 0int, s.len(),
{
    if s.len() == 0 {
        Seq::empty()
    } else {
        spec_texts(store, s.drop_last(), bound).push(
            (
                if s.last().0.id < bound {
                    spec_render(store, s.last().0)
                } else {
                    Seq::empty()
                },
                s.last().1 as int,
            ),
        )
    }
}

/// The projected text and coefficient of each entry, in map order.
pub open spec fn fake_texts(store: Store, s: Seq<(Expr, i64)>, bound: int) -> Seq<(Seq<char>, int)>
    decreases bound, 1int, s.len(),
{
    if s.len() == 0 {
        Seq::empty()
    } else {
        fake_texts(store, s.drop_last(), bound).push(
            (
                if s.last().0.id < bound {
                    spec_render_fake(store, s.last().0)
                } else {
                    Seq::empty()
                },
                s.last().1 as int,
            ),
        )
    }
}

/// The scalar projection's rendering: a field expression read point-wise,
/// array leaves indexed by `[i]`, broadcast scalars passed through.  Only
/// asked of expressions with no reachable transform.
pub open spec fn spec_render_fake(store: Store, e: Expr) -> Seq<char>
    decreases e.id, 2int, 0int,
{
    match store.node_of(e) {
        Node::Var(_, s) => s@ + "[i]"@,
        Node::ScalarVar(_, s) => s@,
        Node::Exp(_, a) => "exp("@ + (if a.id < e.id {
            spec_render_fake(store, a)
        } else {
            Seq::empty()
        }) + ")"@,
        Node::Log(_, a) => "log("@ + (if a.id < e.id {
            spec_render_fake(store, a)
        } else {
            Seq::empty()
        }) + ")"@,
        Node::Add(_, m) => add_render(fake_texts(store, m@, e.id as int)),
        Node::Mul(_, m) => mul_render(fake_texts(store, m@, e.id as int)),
        _ => Seq::empty(),
    }
}

/// The deterministic rendering of an expression.
///
/// Scalars render structurally; integrals render as an accumulation loop over
/// the grid.  Field-domain expressions first decide the mode: with no
/// reachable transform, the whole expression is projected point-wise and
/// assigned inside a flat element-wise loop; with one, the transform call is
/// emitted directly — against the operand's own name when it is a bare
/// variable, against the fixed temporary otherwise.
pub open spec fn spec_render(store: Store, e: Expr) -> Seq<char>
    decreases e.id, 3int, 0int,
{
    let n = store.node_of(e);
    if node_dom(n) == Domain::Scalar {
        match n {
            Node::Var(_, s) => s@,
            Node::Exp(_, a) => "exp("@ + (if a.id < e.id {
                spec_render(store, a)
            } else {
                Seq::empty()
            }) + ")"@,
            Node::Log(_, a) => "log("@ + (if a.id < e.id {
                spec_render(store, a)
            } else {
                Seq::empty()
            }) + ")"@,
            Node::Add(_, m) => add_render(spec_texts(store, m@, e.id as int)),
            Node::Mul(_, m) => mul_render(spec_texts(store, m@, e.id as int)),
            Node::Integrate(nm, a) => "for (int i = 0, integrand = 0.0; i < Nx * Ny * Nz; i++)\n\t"@
                + nm@ + " += "@ + (if a.id < e.id {
                spec_render(store, a)
            } else {
                Seq::empty()
            }) + ";\n"@,
            _ => Seq::empty(),
        }
    } else if node_dom(n) == Domain::RealSpaceScalar {
        if !spec_contains_ifft(store, e) {
            "Vector temp(Nx*Ny*Nz);\nfor (int i = 0; i < Nx * Ny * Nz; i++)\n\ttemp[i] = "@
                + spec_render_fake(store, e) + "\n"@
        } else {
            match n {
                Node::Ifft(a) => match store.node_of(a) {
                    Node::Var(_, s) => "ifft(Nx, Ny, Nz, dV, "@ + s@ + ")"@,
                    _ => "ifft(Nx, Ny, Nz, dV, temp)"@,
                },
                Node::Var(_, s) => s@,
                Node::ScalarVar(_, s) => s@,
                Node::Exp(_, a) => if a.id < e.id {
                    spec_render(store, a)
                } else {
                    Seq::empty()
                },
                Node::Log(_, a) => if a.id < e.id {
                    spec_render(store, a)
                } else {
                    Seq::empty()
                },
                Node::Add(_, m) => add_render(spec_texts(store, m@, e.id as int)),
                Node::Mul(_, m) => mul_render(spec_texts(store, m@, e.id as int)),
                _ => Seq::empty(),
            }
        }
    } else {
        if spec_cfft(store, e).len() == 0 {
            "Vector temp(Nx*Ny*(int(Nz)/2+1));\nfor (int i = 0; i < Nx * Ny * Nz; i++)\n\ttemp[i] = "@
                + spec_render_fake(store, e) + "\n"@
        } else {
            match n {
                Node::Fft(a) => match store.node_of(a) {
                    Node::Var(_, s) => "fft(Nx, Ny, Nz, dV, "@ + s@ + ")"@,
                    _ => "fft(Nx, Ny, Nz, dV, temp)"@,
                },
                Node::Var(_, s) => s@,
                Node::ScalarVar(_, s) => s@,
                Node::Exp(_, a) => if a.id < e.id {
                    spec_render(store, a)
                } else {
                    Seq::empty()
                },
                Node::Log(_, a) => if a.id < e.id {
                    spec_render(store, a)
                } else {
                    Seq::empty()
                },
                Node::Add(_, m) => add_render(spec_texts(store, m@, e.id as int)),
                Node::Mul(_, m) => mul_render(spec_texts(store, m@, e.id as int)),
                _ => Seq::empty(),
            }
        }
    }
}

impl Store {
    /// Render an expression into deterministic C-like text.
    #[verifier::loop_isolation(false)]
    pub fn cpp(&self, e: Expr) -> (r: String)
        requires
            self.inv(),
            self.valid(e),
        ensures
            r@ == spec_render(*self, e),
        decreases e.id, 3int,
    {
        proof {
            assert(node_wf_at(self.nodes@, self.nodes@[e.id as int], e.id as int));
        }
        let d = self.domain(e);
        match d {
            Domain::Scalar => {
                match self.node(e) {
                    Node::Var(_, s) => s.clone(),
                    Node::Exp(_, a) => {
                        let mut out = String::from_str("exp(");
                        let sub = self.cpp(*a);
                        out.append(sub.as_str());
                        out.append(")");
                        proof {
                            assert(out@ =~= spec_render(*self, e));
                        }
                        out
                    },
                    Node::Log(_, a) => {
                        let mut out = String::from_str("log(");
                        let sub = self.cpp(*a);
                        out.append(sub.as_str());
                        out.append(")");
                        proof {
                            assert(out@ =~= spec_render(*self, e));
                        }
                        out
                    },
                    Node::Add(_, m) => {
                        let texts = self.cpp_texts(e, m.as_entries());
                        render_add_texts(texts)
                    },
                    Node::Mul(_, m) => {
                        let texts = self.cpp_texts(e, m.as_entries());
                        render_mul_texts(texts)
                    },
                    Node::Integrate(nm, a) => {
                        let mut out = String::from_str(
                            "for (int i = 0, integrand = 0.0; i < Nx * Ny * Nz; i++)\n\t",
                        );
                        out.append(nm.as_str());
                        out.append(" += ");
                        let sub = self.cpp(*a);
                        out.append(sub.as_str());
                        out.append(";\n");
                        proof {
                            assert(out@ =~= spec_render(*self, e));
                        }
                        out
                    },
                    _ => String::new(),
                }
            },
            Domain::RealSpaceScalar => {
                if !self.contains_ifft(e) {
                    let mut out = String::from_str(
                        "Vector temp(Nx*Ny*Nz);\nfor (int i = 0; i < Nx * Ny * Nz; i++)\n\ttemp[i] = ",
                    );
                    let sub = self.cpp_fake(e);
                    out.append(sub.as_str());
                    out.append("\n");
                    proof {
                        assert(out@ =~= spec_render(*self, e));
                    }
                    out
                } else {
                    self.cpp_transform_branch(e)
                }
            },
            Domain::KSpaceScalar => {
                let reach = self.contains_fft(e);
                if reach.len() == 0 {
                    let mut out = String::from_str(
                        "Vector temp(Nx*Ny*(int(Nz)/2+1));\nfor (int i = 0; i < Nx * Ny * Nz; i++)\n\ttemp[i] = ",
                    );
                    let sub = self.cpp_fake(e);
                    out.append(sub.as_str());
                    out.append("\n");
                    proof {
                        assert(out@ =~= spec_render(*self, e));
                    }
                    out
                } else {
                    self.cpp_transform_branch(e)
                }
            },
        }
    }

    /// The transform-reachable rendering mode of the two field domains.
    fn cpp_transform_branch(&self, e: Expr) -> (r: String)
        requires
            self.inv(),
            self.valid(e),
            self.dom_of(e) == Domain::RealSpaceScalar ==> spec_contains_ifft(*self, e),
            self.dom_of(e) == Domain::KSpaceScalar ==> spec_cfft(*self, e).len() > 0,
            self.dom_of(e) != Domain::Scalar,
        ensures
            r@ == spec_render(*self, e),
        decreases e.id, 2int,
    {
        proof {
            assert(node_wf_at(self.nodes@, self.nodes@[e.id as int], e.id as int));
        }
        match self.node(e) {
            Node::Ifft(a) => {
                match self.node(*a) {
                    Node::Var(_, s) => {
                        let mut out = String::from_str("ifft(Nx, Ny, Nz, dV, ");
                        out.append(s.as_str());
                        out.append(")");
                        proof {
                            assert(out@ =~= spec_render(*self, e));
                        }
                        out
                    },
                    _ => String::from_str("ifft(Nx, Ny, Nz, dV, temp)"),
                }
            },
            Node::Fft(a) => {
                match self.node(*a) {
                    Node::Var(_, s) => {
                        let mut out = String::from_str("fft(Nx, Ny, Nz, dV, ");
                        out.append(s.as_str());
                        out.append(")");
                        proof {
                            assert(out@ =~= spec_render(*self, e));
                        }
                        out
                    },
                    _ => String::from_str("fft(Nx, Ny, Nz, dV, temp)"),
                }
            },
            Node::Var(_, s) => s.clone(),
            Node::ScalarVar(_, s) => s.clone(),
            Node::Exp(_, a) => self.cpp(*a),
            Node::Log(_, a) => self.cpp(*a),
            Node::Add(_, m) => {
                let texts = self.cpp_texts(e, m.as_entries());
                render_add_texts(texts)
            },
            Node::Mul(_, m) => {
                let texts = self.cpp_texts(e, m.as_entries());
                render_mul_texts(texts)
            },
            _ => String::new(),
        }
    }

    /// Render every entry of `e`'s own map, in map order.
    #[verifier::loop_isolation(false)]
    fn cpp_texts(&self, e: Expr, entries: &Vec<(Expr, i64)>) -> (r: Vec<(String, i64)>)
        requires
            self.inv(),
            self.valid(e),
            entries_wf(entries@),
            forall|j: int|
                0 <= j < entries@.len() ==> (#[trigger] entries@[j].0).id < e.id && self.valid(
                    entries@[j].0,
                ),
        ensures
            view_pairs(r@) == spec_texts(*self, entries@, e.id as int),
            forall|j: int| 0 <= j < r@.len() ==> r@[j].1 > i64::MIN,
        decreases e.id, 0int,
    {
        let n = entries.len();
        let mut out: Vec<(String, i64)> = Vec::new();
        let mut i: usize = 0;
        while i < n
            invariant
                i <= n,
                n == entries@.len(),
                view_pairs(out@) == spec_texts(*self, entries@.take(i as int), e.id as int),
                forall|j: int| 0 <= j < out@.len() ==> out@[j].1 > i64::MIN,
            decreases n - i,
        {
            proof {
                assert(entries@.take(i + 1).drop_last() =~= entries@.take(i as int));
                assert(entries@.take(i + 1).last() == entries@[i as int]);
            }
            let text = self.cpp(entries[i].0);
            out.push((text, entries[i].1));
            proof {
                assert(view_pairs(out@) =~= spec_texts(*self, entries@.take(i + 1), e.id as int));
            }
            i = i + 1;
        }
        proof {
            assert(entries@.take(n as int) =~= entries@);
        }
        out
    }

    /// Render the point-wise scalar projection of a field expression.
    fn cpp_fake(&self, e: Expr) -> (r: String)
        requires
            self.inv(),
            self.valid(e),
        ensures
            r@ == spec_render_fake(*self, e),
        decreases e.id, 1int,
    {
        proof {
            assert(node_wf_at(self.nodes@, self.nodes@[e.id as int], e.id as int));
        }
        match self.node(e) {
            Node::Var(_, s) => {
                let mut out = s.clone();
                out.append("[i]");
                proof {
                    assert(out@ =~= spec_render_fake(*self, e));
                }
                out
            },
            Node::ScalarVar(_, s) => s.clone(),
            Node::Exp(_, a) => {
                let mut out = String::from_str("exp(");
                let sub = self.cpp_fake(*a);
                out.append(sub.as_str());
                out.append(")");
                proof {
                    assert(out@ =~= spec_render_fake(*self, e));
                }
                out
            },
            Node::Log(_, a) => {
                let mut out = String::from_str("log(");
                let sub = self.cpp_fake(*a);
                out.append(sub.as_str());
                out.append(")");
                proof {
                    assert(out@ =~= spec_render_fake(*self, e));
                }
                out
            },
            Node::Add(_, m) => {
                let texts = self.cpp_fake_texts(e, m.as_entries());
                render_add_texts(texts)
            },
            Node::Mul(_, m) => {
                let texts = self.cpp_fake_texts(e, m.as_entries());
                render_mul_texts(texts)
            },
            _ => String::new(),
        }
    }

    /// Render the projection of every entry of `e`'s own map, in map order.
    #[verifier::loop_isolation(false)]
    fn cpp_fake_texts(&self, e: Expr, entries: &Vec<(Expr, i64)>) -> (r: Vec<(String, i64)>)
        requires
            self.inv(),
            self.valid(e),
            entries_wf(entries@),
            forall|j: int|
                0 <= j < entries@.len() ==> (#[trigger] entries@[j].0).id < e.id && self.valid(
                    entries@[j].0,
                ),
        ensures
            view_pairs(r@) == fake_texts(*self, entries@, e.id as int),
            forall|j: int| 0 <= j < r@.len() ==> r@[j].1 > i64::MIN,
        decreases e.id, 0int,
    {
        let n = entries.len();
        let mut out: Vec<(String, i64)> = Vec::new();
        let mut i: usize = 0;
        while i < n
            invariant
                i <= n,
                n == entries@.len(),
                view_pairs(out@) == fake_texts(*self, entries@.take(i as int), e.id as int),
                forall|j: int| 0 <= j < out@.len() ==> out@[j].1 > i64::MIN,
            decreases n - i,
        {
            proof {
                assert(entries@.take(i + 1).drop_last() =~= entries@.take(i as int));
                assert(entries@.take(i + 1).last() == entries@[i as int]);
            }
            let text = self.cpp_fake(entries[i].0);
            out.push((text, entries[i].1));
            proof {
                assert(view_pairs(out@) =~= fake_texts(*self, entries@.take(i + 1), e.id as int));
            }
            i = i + 1;
        }
        proof {
            assert(entries@.take(n as int) =~= entries@);
        }
        out
    }
}

} // verus!
