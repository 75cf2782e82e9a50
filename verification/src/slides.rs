//! Slide parts of a pptx archive: which entries are slides, their numbers, and their order.
use vstd::prelude::*;
use vstd::relations::{sorted_by, total_ordering};
use crate::text::{chars_of, strings_view};

verus! {

broadcast use vstd::seq_lib::group_to_multiset_ensures;

/// The value of a string of decimal digits.
pub open spec fn digits_value(d: Seq<char>) -> nat
    decreases d.len(),
{
    if d.len() == 0 {
        0
    } else {
        digits_value(d.drop_last()) * 10 + ((d.last() as nat) - ('0' as nat)) as nat
    }
}

pub open spec fn all_digits(d: Seq<char>) -> bool {
    forall|i: int| 0 <= i < d.len() ==> '0' <= #[trigger] d[i] <= '9'
}

/// `u32` parsing as `str::parse` does it: an optional `+`, then one or more decimal digits of
/// a value that fits.
pub open spec fn parse_u32_spec(s: Seq<char>) -> Option<u32> {
    let d = if s.len() > 0 && s[0] == '+' { s.drop_first() } else { s };
    if d.len() > 0 && all_digits(d) && digits_value(d) <= u32::MAX {
        Some(digits_value(d) as u32)
    } else {
        None
    }
}

proof fn lemma_digits_grow(d: Seq<char>, k: int)
    requires
        0 <= k <= d.len(),
        all_digits(d),
    ensures
        digits_value(d.take(k)) <= digits_value(d),
    decreases d.len() - k,
{
    if k < d.len() {
        lemma_digits_grow(d, k + 1);
        assert(d.take(k + 1).drop_last() == d.take(k));
        assert('0' <= d[k] <= '9');
    } else {
        assert(d.take(k) == d);
    }
}

/// Parses a `u32` (`parse_u32_spec`).
pub fn parse_u32(s: &[char]) -> (r: Option<u32>)
    ensures
        r == parse_u32_spec(s@),
{
    let start: usize = if s.len() > 0 && s[0] == '+' { 1 } else { 0 };
    let ghost d = if s@.len() > 0 && s@[0] == '+' { s@.drop_first() } else { s@ };
    assert(d == s@.subrange(start as int, s@.len() as int));
    if start == s.len() {
        return None;
    }
    let mut v: u64 = 0;
    let mut i: usize = start;
    while i < s.len()
        invariant
            start <= i <= s.len(),
            d == s@.subrange(start as int, s@.len() as int),
            d == (if s@.len() > 0 && s@[0] == '+' { s@.drop_first() } else { s@ }),
            v == digits_value(d.take(i - start)),
            v <= u32::MAX,
            forall|k: int| 0 <= k < i - start ==> '0' <= #[trigger] d[k] <= '9',
        decreases s.len() - i,
    {
        let c = s[i];
        assert(d[i - start] == c);
        if !('0' <= c && c <= '9') {
            assert(!all_digits(d));
            assert(parse_u32_spec(s@) is None);
            return None;
        }
        assert(d.take(i - start + 1).drop_last() == d.take(i - start));
        assert(d.take(i - start + 1).last() == c);
        v = v * 10 + ((c as u32) - ('0' as u32)) as u64;
        assert(v == digits_value(d.take(i - start + 1)));
        if v > 0xffff_ffff {
            proof {
                if all_digits(d) {
                    lemma_digits_grow(d, i - start + 1);
                }
            }
            assert(parse_u32_spec(s@) is None);
            return None;
        }
        i = i + 1;
    }
    assert(d.take(i - start) == d);
    Some(v as u32)
}

/// Whether `s` starts with `p`.
pub open spec fn has_prefix(s: Seq<char>, p: Seq<char>) -> bool {
    p.len() <= s.len() && s.take(p.len() as int) == p
}

/// Whether `s` ends with `p`.
pub open spec fn has_suffix(s: Seq<char>, p: Seq<char>) -> bool {
    p.len() <= s.len() && s.skip(s.len() - p.len()) == p
}

/// The slide number of an archive entry `ppt/slides/slide<N>.xml`, `None` for other entries.
pub open spec fn slide_number_spec(name: Seq<char>) -> Option<u32> {
    let pre = "ppt/slides/slide"@;
    let suf = ".xml"@;
    if has_prefix(name, pre) && has_suffix(name.skip(pre.len() as int), suf) {
        parse_u32_spec(name.subrange(pre.len() as int, name.len() - suf.len()))
    } else {
        None
    }
}

fn starts_with(s: &[char], p: &[char]) -> (r: bool)
    ensures
        r == has_prefix(s@, p@),
{
    if p.len() > s.len() {
        return false;
    }
    let mut i: usize = 0;
    while i < p.len()
        invariant
            i <= p.len() <= s.len(),
            s@.take(i as int) == p@.take(i as int),
        decreases p.len() - i,
    {
        if s[i] != p[i] {
            assert(s@.take(p.len() as int)[i as int] != p@[i as int]);
            return false;
        }
        assert(s@.take(i + 1) == s@.take(i as int).push(s@[i as int]));
        assert(p@.take(i + 1) == p@.take(i as int).push(p@[i as int]));
        i = i + 1;
    }
    assert(p@.take(p.len() as int) == p@);
    true
}

/// The slide number of an archive entry name (`slide_number_spec`).
pub fn slide_number(name: &str) -> (r: Option<u32>)
    ensures
        r == slide_number_spec(name@),
{
    let cs = chars_of(name);
    let pre = chars_of("ppt/slides/slide");
    let suf = chars_of(".xml");
    if !starts_with(cs.as_slice(), pre.as_slice()) {
        return None;
    }
    let rest = &cs.as_slice()[pre.len()..cs.len()];
    assert(rest@ == cs@.skip(pre@.len() as int));
    let n = rest.len();
    if suf.len() > n {
        return None;
    }
    let tail = &rest[n - suf.len()..n];
    assert(tail@ == rest@.skip(n - suf@.len()));
    if !starts_with(tail, suf.as_slice()) {
        assert(!has_suffix(rest@, suf@)) by {
            assert(tail@.take(suf@.len() as int) == tail@);
        }
        return None;
    }
    assert(has_suffix(rest@, suf@)) by {
        assert(tail@.take(suf@.len() as int) == tail@);
    }
    let num = &cs.as_slice()[pre.len()..cs.len() - suf.len()];
    parse_u32(num)
}

/// Lexicographic order of character sequences (the order of `String`, since UTF-8 keeps the
/// order of code points).
pub open spec fn chars_le(a: Seq<char>, b: Seq<char>) -> bool
    decreases a.len(),
{
    if a.len() == 0 {
        true
    } else if b.len() == 0 {
        false
    } else if a[0] != b[0] {
        a[0] < b[0]
    } else {
        chars_le(a.drop_first(), b.drop_first())
    }
}

/// Slides are ordered by number, then by entry name.
pub open spec fn slide_le(x: (u32, Seq<char>), y: (u32, Seq<char>)) -> bool {
    x.0 < y.0 || (x.0 == y.0 && chars_le(x.1, y.1))
}

/// The slide order as a relation.
pub open spec fn slide_order() -> spec_fn((u32, Seq<char>), (u32, Seq<char>)) -> bool {
    |x: (u32, Seq<char>), y: (u32, Seq<char>)| slide_le(x, y)
}

proof fn lemma_chars_le_total(a: Seq<char>, b: Seq<char>)
    ensures
        chars_le(a, b) || chars_le(b, a),
        chars_le(a, b) && chars_le(b, a) ==> a == b,
        chars_le(a, a),
    decreases a.len(),
{
    if a.len() > 0 && b.len() > 0 {
        lemma_chars_le_total(a.drop_first(), b.drop_first());
        if a[0] == b[0] && chars_le(a, b) && chars_le(b, a) {
            assert(a == seq![a[0]] + a.drop_first());
            assert(b == seq![b[0]] + b.drop_first());
        }
    }
    if a.len() > 0 {
        lemma_chars_le_total(a.drop_first(), a.drop_first());
    }
    if a.len() == 0 && b.len() == 0 {
        assert(a == b);
    }
}

proof fn lemma_chars_le_trans(a: Seq<char>, b: Seq<char>, c: Seq<char>)
    requires
        chars_le(a, b),
        chars_le(b, c),
    ensures
        chars_le(a, c),
    decreases a.len(),
{
    if a.len() > 0 && b.len() > 0 && c.len() > 0 && a[0] == b[0] && b[0] == c[0] {
        lemma_chars_le_trans(a.drop_first(), b.drop_first(), c.drop_first());
    }
}

/// The slide order is a total order.
pub proof fn lemma_slide_order_total()
    ensures
        total_ordering(slide_order()),
{
    let le = slide_order();
    assert forall|x: (u32, Seq<char>)| #[trigger] le(x, x) by {
        lemma_chars_le_total(x.1, x.1);
    }
    assert forall|x: (u32, Seq<char>), y: (u32, Seq<char>)| #[trigger] le(x, y) && #[trigger] le(y, x) implies x == y by {
        lemma_chars_le_total(x.1, y.1);
    }
    assert forall|x: (u32, Seq<char>), y: (u32, Seq<char>), z: (u32, Seq<char>)| #[trigger] le(x, y) && #[trigger] le(y, z) implies le(x, z) by {
        if x.0 == y.0 && y.0 == z.0 {
            lemma_chars_le_trans(x.1, y.1, z.1);
        }
    }
    assert forall|x: (u32, Seq<char>), y: (u32, Seq<char>)| #[trigger] le(x, y) || #[trigger] le(y, x) by {
        lemma_chars_le_total(x.1, y.1);
    }
}

fn chars_le_exec(a: &[char], b: &[char]) -> (r: bool)
    ensures
        r == chars_le(a@, b@),
{
    let mut i: usize = 0;
    assert(a@.skip(0) == a@);
    assert(b@.skip(0) == b@);
    while i < a.len() && i < b.len() && a[i] == b[i]
        invariant
            i <= a.len(),
            i <= b.len(),
            chars_le(a@, b@) == chars_le(a@.skip(i as int), b@.skip(i as int)),
        decreases a.len() - i,
    {
        assert(a@.skip(i as int).drop_first() == a@.skip(i + 1));
        assert(b@.skip(i as int).drop_first() == b@.skip(i + 1));
        i = i + 1;
    }
    if i == a.len() {
        true
    } else if i == b.len() {
        false
    } else {
        a[i] < b[i]
    }
}

pub open spec fn slides_view(s: Seq<(u32, String)>) -> Seq<(u32, Seq<char>)> {
    s.map_values(|e: (u32, String)| (e.0, e.1@))
}

fn slide_le_exec(x: &(u32, String), y: &(u32, String)) -> (r: bool)
    ensures
        r == slide_le((x.0, x.1@), (y.0, y.1@)),
{
    x.0 < y.0 || (x.0 == y.0 && chars_le_exec(chars_of(x.1.as_str()).as_slice(), chars_of(y.1.as_str()).as_slice()))
}

/// The `(number, name)` entries of the slide parts among archive entry names, in archive order.
pub open spec fn slide_entries(names: Seq<Seq<char>>) -> Seq<(u32, Seq<char>)>
    decreases names.len(),
{
    if names.len() == 0 {
        Seq::empty()
    } else {
        let rest = slide_entries(names.drop_last());
        match slide_number_spec(names.last()) {
            Some(n) => rest.push((n, names.last())),
            None => rest,
        }
    }
}

/// The slide parts among archive entry names, ordered by slide number, then by name.
pub open spec fn sorted_slides(names: Seq<Seq<char>>) -> Seq<(u32, Seq<char>)> {
    slide_entries(names).sort_by(slide_order())
}

/// Inserts an entry into a sorted list, after the entries not greater than it.
fn insert_sorted(v: &mut Vec<(u32, String)>, x: (u32, String))
    requires
        sorted_by(slides_view(old(v)@), slide_order()),
    ensures
        sorted_by(slides_view(final(v)@), slide_order()),
        slides_view(final(v)@).to_multiset() == slides_view(old(v)@).to_multiset().insert((x.0, x.1@)),
{
    let ghost le = slide_order();
    let ghost xv = (x.0, x.1@);
    let ghost sv = slides_view(v@);
    proof {
        lemma_slide_order_total();
    }
    let mut p: usize = 0;
    while p < v.len() && slide_le_exec(&v[p], &x)
        invariant
            p <= v.len(),
            sv == slides_view(v@),
            le == slide_order(),
            xv == (x.0, x.1@),
            forall|k: int| 0 <= k < p ==> #[trigger] le(sv[k], xv),
        decreases v.len() - p,
    {
        assert(sv[p as int] == (v@[p as int].0, v@[p as int].1@));
        assert(le(sv[p as int], xv));
        p = p + 1;
    }
    proof {
        if p < v.len() {
            assert(sv[p as int] == (v@[p as int].0, v@[p as int].1@));
            assert(!le(sv[p as int], xv));
            assert(le(xv, sv[p as int]));
        }
    }
    v.insert(p, x);
    let ghost nv = slides_view(v@);
    assert(nv =~= sv.insert(p as int, xv));
    assert(sorted_by(nv, le)) by {
        assert forall|i: int, j: int| 0 <= i < j < nv.len() implies #[trigger] le(nv[i], nv[j]) by {
            if j < p {
                assert(le(sv[i], sv[j]));
            } else if j == p {
                assert(le(sv[i], xv));
            } else if i < p {
                assert(le(sv[i], sv[j - 1]));
            } else if i == p {
                assert(le(xv, sv[p as int]));
                if j - 1 > p {
                    assert(le(sv[p as int], sv[j - 1]));
                }
            } else {
                assert(le(sv[i - 1], sv[j - 1]));
            }
        }
    }
    proof {
        vstd::seq_lib::to_multiset_insert(sv, p as int, xv);
    }
}

/// The slide parts among archive entry names, ordered (`sorted_slides`).
pub fn slide_parts(names: &[String]) -> (r: Vec<(u32, String)>)
    ensures
        slides_view(r@) == sorted_slides(strings_view(names@)),
{
    let ghost le = slide_order();
    let ghost nv = strings_view(names@);
    let mut out: Vec<(u32, String)> = Vec::new();
    let mut i: usize = 0;
    while i < names.len()
        invariant
            i <= names.len(),
            nv == strings_view(names@),
            le == slide_order(),
            sorted_by(slides_view(out@), le),
            slides_view(out@).to_multiset() == slide_entries(nv.take(i as int)).to_multiset(),
        decreases names.len() - i,
    {
        assert(nv.take(i + 1).drop_last() == nv.take(i as int));
        assert(nv.take(i + 1).last() == names@[i as int]@);
        match slide_number(names[i].as_str()) {
            Some(n) => {
                insert_sorted(&mut out, (n, names[i].clone()));
                assert(slide_entries(nv.take(i + 1)) == slide_entries(nv.take(i as int)).push((n, names@[i as int]@)));
                proof {
                    vstd::seq_lib::to_multiset_build(slide_entries(nv.take(i as int)), (n, names@[i as int]@));
                }
            },
            None => {},
        }
        i = i + 1;
    }
    assert(nv.take(names.len() as int) == nv);
    proof {
        lemma_slide_order_total();
        slide_entries(nv).lemma_sort_by_ensures(le);
        vstd::seq_lib::lemma_sorted_unique(slides_view(out@), sorted_slides(nv), le);
    }
    out
}

} // verus!
