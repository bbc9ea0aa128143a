//! Lexicographic comparisons on the plain values that make up a unit.
//!
//! Strings compare by their UTF-8 encoding, byte by byte, which is the order
//! that `str` has in Rust; sequences of strings compare element by element.
use core::cmp::Ordering;
use vstd::prelude::*;
use vstd::utf8::*;

verus! {

broadcast use vstd::utf8::encode_utf8_decode_utf8;

/// The first ordering unless it is `Equal`, then the second.
pub open spec fn then(a: Ordering, b: Ordering) -> Ordering {
    if a == Ordering::Equal {
        b
    } else {
        a
    }
}

pub open spec fn cmp_int(a: int, b: int) -> Ordering {
    if a < b {
        Ordering::Less
    } else if a > b {
        Ordering::Greater
    } else {
        Ordering::Equal
    }
}

pub open spec fn cmp_bool(a: bool, b: bool) -> Ordering {
    cmp_int(if a { 1 } else { 0 }, if b { 1 } else { 0 })
}

pub open spec fn cmp_bytes(a: Seq<u8>, b: Seq<u8>) -> Ordering
    decreases a.len(),
{
    if a.len() == 0 {
        if b.len() == 0 {
            Ordering::Equal
        } else {
            Ordering::Less
        }
    } else if b.len() == 0 {
        Ordering::Greater
    } else {
        then(cmp_int(a[0] as int, b[0] as int), cmp_bytes(a.drop_first(), b.drop_first()))
    }
}

pub open spec fn cmp_text(a: Seq<char>, b: Seq<char>) -> Ordering {
    cmp_bytes(encode_utf8(a), encode_utf8(b))
}

pub open spec fn cmp_texts(a: Seq<Seq<char>>, b: Seq<Seq<char>>) -> Ordering
    decreases a.len(),
{
    if a.len() == 0 {
        if b.len() == 0 {
            Ordering::Equal
        } else {
            Ordering::Less
        }
    } else if b.len() == 0 {
        Ordering::Greater
    } else {
        then(cmp_text(a[0], b[0]), cmp_texts(a.drop_first(), b.drop_first()))
    }
}

/// `None` comes before every `Some`.
pub open spec fn cmp_opt_text(a: Option<Seq<char>>, b: Option<Seq<char>>) -> Ordering {
    match (a, b) {
        (None, None) => Ordering::Equal,
        (None, Some(_)) => Ordering::Less,
        (Some(_), None) => Ordering::Greater,
        (Some(x), Some(y)) => cmp_text(x, y),
    }
}

/// The three facts that make a comparison a total order on `T`.
pub open spec fn total_at<T>(ab: Ordering, ba: Ordering, bc: Ordering, ac: Ordering, a: T, b: T) -> bool {
    &&& (ab == Ordering::Equal <==> a == b)
    &&& (ab == Ordering::Less <==> ba == Ordering::Greater)
    &&& (ab == Ordering::Less && bc == Ordering::Less ==> ac == Ordering::Less)
}

pub proof fn lemma_cmp_bytes(a: Seq<u8>, b: Seq<u8>, c: Seq<u8>)
    ensures
        total_at(cmp_bytes(a, b), cmp_bytes(b, a), cmp_bytes(b, c), cmp_bytes(a, c), a, b),
    decreases a.len(),
{
    if a.len() > 0 && b.len() > 0 && c.len() > 0 {
        lemma_cmp_bytes(a.drop_first(), b.drop_first(), c.drop_first());
        assert(a =~= seq![a[0]] + a.drop_first());
        assert(b =~= seq![b[0]] + b.drop_first());
    } else if a.len() > 0 && b.len() > 0 {
        lemma_cmp_bytes(a.drop_first(), b.drop_first(), a.drop_first());
        assert(a =~= seq![a[0]] + a.drop_first());
        assert(b =~= seq![b[0]] + b.drop_first());
    } else if a.len() == 0 && b.len() == 0 {
        assert(a =~= b);
    }
}

pub proof fn lemma_cmp_text(a: Seq<char>, b: Seq<char>, c: Seq<char>)
    ensures
        total_at(cmp_text(a, b), cmp_text(b, a), cmp_text(b, c), cmp_text(a, c), a, b),
{
    lemma_cmp_bytes(encode_utf8(a), encode_utf8(b), encode_utf8(c));
    assert(decode_utf8(encode_utf8(a)) == a);
    assert(decode_utf8(encode_utf8(b)) == b);
}

pub proof fn lemma_cmp_texts(a: Seq<Seq<char>>, b: Seq<Seq<char>>, c: Seq<Seq<char>>)
    ensures
        total_at(cmp_texts(a, b), cmp_texts(b, a), cmp_texts(b, c), cmp_texts(a, c), a, b),
    decreases a.len(),
{
    if a.len() > 0 && b.len() > 0 && c.len() > 0 {
        lemma_cmp_texts(a.drop_first(), b.drop_first(), c.drop_first());
        lemma_cmp_text(a[0], b[0], c[0]);
        lemma_cmp_text(b[0], a[0], c[0]);
        lemma_cmp_text(b[0], c[0], a[0]);
        assert(a =~= seq![a[0]] + a.drop_first());
        assert(b =~= seq![b[0]] + b.drop_first());
    } else if a.len() > 0 && b.len() > 0 {
        lemma_cmp_texts(a.drop_first(), b.drop_first(), a.drop_first());
        lemma_cmp_text(a[0], b[0], a[0]);
        lemma_cmp_text(b[0], a[0], a[0]);
        assert(a =~= seq![a[0]] + a.drop_first());
        assert(b =~= seq![b[0]] + b.drop_first());
    } else if a.len() == 0 && b.len() == 0 {
        assert(a =~= b);
    }
}

pub proof fn lemma_cmp_opt_text(a: Option<Seq<char>>, b: Option<Seq<char>>, c: Option<Seq<char>>)
    ensures
        total_at(
            cmp_opt_text(a, b),
            cmp_opt_text(b, a),
            cmp_opt_text(b, c),
            cmp_opt_text(a, c),
            a,
            b,
        ),
{
    if a is Some && b is Some && c is Some {
        lemma_cmp_text(a->0, b->0, c->0);
    } else if a is Some && b is Some {
        lemma_cmp_text(a->0, b->0, a->0);
    }
}

pub fn cmp_u64(a: u64, b: u64) -> (r: Ordering)
    ensures
        r == cmp_int(a as int, b as int),
{
    if a < b {
        Ordering::Less
    } else if a > b {
        Ordering::Greater
    } else {
        Ordering::Equal
    }
}

pub fn cmp_flag(a: bool, b: bool) -> (r: Ordering)
    ensures
        r == cmp_bool(a, b),
{
    if a == b {
        Ordering::Equal
    } else if b {
        Ordering::Less
    } else {
        Ordering::Greater
    }
}

fn cmp_byte_vecs(a: &Vec<u8>, b: &Vec<u8>) -> (r: Ordering)
    ensures
        r == cmp_bytes(a@, b@),
{
    let mut i: usize = 0;
    assert(a@.skip(0) =~= a@);
    assert(b@.skip(0) =~= b@);
    while i < a.len() && i < b.len()
        invariant
            i <= a.len(),
            i <= b.len(),
            cmp_bytes(a@, b@) == cmp_bytes(a@.skip(i as int), b@.skip(i as int)),
        decreases a.len() - i,
    {
        if a[i] != b[i] {
            return cmp_u64(a[i] as u64, b[i] as u64);
        }
        assert(a@.skip(i as int).drop_first() =~= a@.skip(i + 1));
        assert(b@.skip(i as int).drop_first() =~= b@.skip(i + 1));
        i = i + 1;
    }
    if i < b.len() {
        Ordering::Less
    } else if i < a.len() {
        Ordering::Greater
    } else {
        Ordering::Equal
    }
}

pub fn cmp_string(a: &String, b: &String) -> (r: Ordering)
    ensures
        r == cmp_text(a@, b@),
{
    let x = a.as_str().as_bytes_vec();
    let y = b.as_str().as_bytes_vec();
    cmp_byte_vecs(&x, &y)
}

pub fn cmp_strings(a: &Vec<String>, b: &Vec<String>) -> (r: Ordering)
    ensures
        r == cmp_texts(a.deep_view(), b.deep_view()),
{
    let ghost da = a.deep_view();
    let ghost db = b.deep_view();
    let mut i: usize = 0;
    assert(da.skip(0) =~= da);
    assert(db.skip(0) =~= db);
    assert(da.len() == a.len() && db.len() == b.len());
    while i < a.len() && i < b.len()
        invariant
            i <= a.len(),
            i <= b.len(),
            da == a.deep_view(),
            db == b.deep_view(),
            da.len() == a.len(),
            db.len() == b.len(),
            cmp_texts(da, db) == cmp_texts(da.skip(i as int), db.skip(i as int)),
        decreases a.len() - i,
    {
        let o = cmp_string(&a[i], &b[i]);
        assert(da.skip(i as int)[0] == a@[i as int]@);
        assert(db.skip(i as int)[0] == b@[i as int]@);
        assert(da.skip(i as int).drop_first() =~= da.skip(i + 1));
        assert(db.skip(i as int).drop_first() =~= db.skip(i + 1));
        assert(cmp_texts(da.skip(i as int), db.skip(i as int)) == then(
            cmp_text(a@[i as int]@, b@[i as int]@),
            cmp_texts(da.skip(i + 1), db.skip(i + 1)),
        ));
        match o {
            Ordering::Equal => {},
            _ => {
                return o;
            },
        }
        i = i + 1;
    }
    if i < b.len() {
        Ordering::Less
    } else if i < a.len() {
        Ordering::Greater
    } else {
        Ordering::Equal
    }
}

pub fn cmp_opt_string(a: &Option<String>, b: &Option<String>) -> (r: Ordering)
    ensures
        r == cmp_opt_text(opt_text(a), opt_text(b)),
{
    match (a, b) {
        (None, None) => Ordering::Equal,
        (None, Some(_)) => Ordering::Less,
        (Some(_), None) => Ordering::Greater,
        (Some(x), Some(y)) => cmp_string(x, y),
    }
}

/// The characters of an optional string.
pub open spec fn opt_text(o: &Option<String>) -> Option<Seq<char>> {
    match o {
        Some(s) => Some(s@),
        None => None,
    }
}

/// A copy of a list of strings.
pub fn clone_strings(v: &Vec<String>) -> (r: Vec<String>)
    ensures
        r.deep_view() == v.deep_view(),
{
    let mut r: Vec<String> = Vec::new();
    let mut i: usize = 0;
    while i < v.len()
        invariant
            i <= v.len(),
            r@.len() == i,
            forall|j: int| 0 <= j < i ==> r@[j]@ == v@[j]@,
        decreases v.len() - i,
    {
        r.push(v[i].clone());
        i = i + 1;
    }
    assert(r.deep_view() =~= v.deep_view());
    r
}

/// A copy of an optional string.
pub fn clone_opt_string(o: &Option<String>) -> (r: Option<String>)
    ensures
        opt_text(&r) == opt_text(o),
{
    match o {
        Some(s) => Some(s.clone()),
        None => None,
    }
}

} // verus!
