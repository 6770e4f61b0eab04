use vstd::prelude::*;
use vstd::utf8::{decode_utf8, encode_utf8, encode_utf8_decode_utf8};

verus! {

/// Whether no two entries share a key.
pub open spec fn unique_keys<V>(s: Seq<(String, V)>) -> bool {
    forall|i: int, j: int| 0 <= i < s.len() && 0 <= j < s.len() && i != j ==> s[i].0@ != s[j].0@
}

/// Lexicographic order on byte strings, a proper prefix coming first.
pub open spec fn bytes_lt(a: Seq<u8>, b: Seq<u8>) -> bool
    decreases a.len(),
{
    if a.len() == 0 {
        b.len() > 0
    } else if b.len() == 0 {
        false
    } else if a[0] != b[0] {
        a[0] < b[0]
    } else {
        bytes_lt(a.drop_first(), b.drop_first())
    }
}

/// The order of names: that of their UTF-8 bytes, as for `str`.
pub open spec fn key_lt(a: Seq<char>, b: Seq<char>) -> bool {
    bytes_lt(encode_utf8(a), encode_utf8(b))
}

/// Names strictly increase along the entries.
pub open spec fn ordered_keys<V>(s: Seq<(String, V)>) -> bool {
    forall|i: int, j: int| 0 <= i < j < s.len() ==> key_lt(#[trigger] s[i].0@, #[trigger] s[j].0@)
}

pub proof fn lemma_bytes_lt_irreflexive(a: Seq<u8>)
    ensures
        !bytes_lt(a, a),
    decreases a.len(),
{
    if a.len() > 0 {
        lemma_bytes_lt_irreflexive(a.drop_first());
    }
}

pub proof fn lemma_bytes_lt_transitive(a: Seq<u8>, b: Seq<u8>, c: Seq<u8>)
    requires
        bytes_lt(a, b),
        bytes_lt(b, c),
    ensures
        bytes_lt(a, c),
    decreases a.len(),
{
    if a.len() > 0 && b.len() > 0 && c.len() > 0 && a[0] == b[0] && b[0] == c[0] {
        lemma_bytes_lt_transitive(a.drop_first(), b.drop_first(), c.drop_first());
    }
}

pub proof fn lemma_bytes_lt_total(a: Seq<u8>, b: Seq<u8>)
    requires
        a != b,
    ensures
        bytes_lt(a, b) || bytes_lt(b, a),
    decreases a.len(),
{
    if a.len() > 0 && b.len() > 0 && a[0] == b[0] {
        if a.drop_first() == b.drop_first() {
            assert(a =~= seq![a[0]] + a.drop_first());
            assert(b =~= seq![b[0]] + b.drop_first());
        }
        lemma_bytes_lt_total(a.drop_first(), b.drop_first());
    } else if a.len() == 0 && b.len() == 0 {
        assert(a =~= b);
    }
}

/// `key_lt` is a strict total order.
pub proof fn lemma_key_order()
    ensures
        forall|a: Seq<char>| !key_lt(a, a),
        forall|a: Seq<char>, b: Seq<char>, c: Seq<char>|
            key_lt(a, b) && key_lt(b, c) ==> key_lt(a, c),
        forall|a: Seq<char>, b: Seq<char>| a != b ==> key_lt(a, b) || key_lt(b, a),
{
    assert forall|a: Seq<char>| !key_lt(a, a) by {
        lemma_bytes_lt_irreflexive(encode_utf8(a));
    }
    assert forall|a: Seq<char>, b: Seq<char>, c: Seq<char>|
        key_lt(a, b) && key_lt(b, c) implies key_lt(a, c) by {
        lemma_bytes_lt_transitive(encode_utf8(a), encode_utf8(b), encode_utf8(c));
    }
    assert forall|a: Seq<char>, b: Seq<char>| a != b implies key_lt(a, b) || key_lt(b, a) by {
        encode_utf8_decode_utf8(a);
        encode_utf8_decode_utf8(b);
        lemma_bytes_lt_total(encode_utf8(a), encode_utf8(b));
    }
}

/// Ordered entries have unique names.
pub proof fn lemma_ordered_unique<V>(s: Seq<(String, V)>)
    requires
        ordered_keys(s),
    ensures
        unique_keys(s),
{
    lemma_key_order();
    assert forall|i: int, j: int| 0 <= i < s.len() && 0 <= j < s.len() && i != j implies s[i].0@
        != s[j].0@ by {
        if i < j {
            assert(key_lt(s[i].0@, s[j].0@));
        } else {
            assert(key_lt(s[j].0@, s[i].0@));
        }
    }
}

/// Whether `p` is where a new name `k` goes among ordered entries: after
/// every smaller name.
pub open spec fn is_insertion_point<V>(s: Seq<(String, V)>, k: Seq<char>, p: int) -> bool {
    &&& 0 <= p <= s.len()
    &&& forall|j: int| 0 <= j < p ==> key_lt(#[trigger] s[j].0@, k)
    &&& p < s.len() ==> !key_lt(s[p].0@, k)
}

/// Where a new name `k` goes among ordered entries.
pub open spec fn insertion_point<V>(s: Seq<(String, V)>, k: Seq<char>) -> int {
    choose|p: int| is_insertion_point(s, k, p)
}

pub proof fn lemma_insertion_point<V>(s: Seq<(String, V)>, k: Seq<char>, p: int)
    requires
        is_insertion_point(s, k, p),
    ensures
        insertion_point(s, k) == p,
{
    let q = insertion_point(s, k);
    assert(is_insertion_point(s, k, q));
    if q < p {
        assert(key_lt(s[q].0@, k));
    }
    if p < q {
        assert(key_lt(s[p].0@, k));
    }
}

/// Whether some entry has key `k`.
pub open spec fn has_key<V>(s: Seq<(String, V)>, k: Seq<char>) -> bool {
    exists|i: int| 0 <= i < s.len() && s[i].0@ == k
}

/// The position of the entry with key `k`, or -1.
pub open spec fn key_index<V>(s: Seq<(String, V)>, k: Seq<char>) -> int {
    if has_key(s, k) {
        choose|i: int| 0 <= i < s.len() && s[i].0@ == k
    } else {
        -1
    }
}

/// The value stored under `k`, if any.
pub open spec fn lookup<V>(s: Seq<(String, V)>, k: Seq<char>) -> Option<V> {
    if has_key(s, k) {
        Some(s[key_index(s, k)].1)
    } else {
        None
    }
}

/// The entries after storing `v` under `k`: in place if `k` is present, at
/// its place in name order otherwise.
pub open spec fn store<V>(s: Seq<(String, V)>, k: String, v: V) -> Seq<(String, V)> {
    if has_key(s, k@) {
        s.update(key_index(s, k@), (k, v))
    } else {
        s.insert(insertion_point(s, k@), (k, v))
    }
}

/// The entries after storing each pair of `pairs` in order, from none.
pub open spec fn store_all<V>(pairs: Seq<(String, V)>) -> Seq<(String, V)>
    decreases pairs.len(),
{
    if pairs.len() == 0 {
        Seq::empty()
    } else {
        store(store_all(pairs.drop_last()), pairs.last().0, pairs.last().1)
    }
}

/// The entries after dropping the one with key `k`, if any.
pub open spec fn discard<V>(s: Seq<(String, V)>, k: Seq<char>) -> Seq<(String, V)> {
    if has_key(s, k) {
        s.remove(key_index(s, k))
    } else {
        s
    }
}

pub proof fn lemma_key_index<V>(s: Seq<(String, V)>, i: int)
    requires
        unique_keys(s),
        0 <= i < s.len(),
    ensures
        has_key(s, s[i].0@),
        key_index(s, s[i].0@) == i,
        lookup(s, s[i].0@) == Some(s[i].1),
{
    assert(s[i].0@ == s[i].0@);
}

pub proof fn lemma_insertion_point_exists<V>(s: Seq<(String, V)>, k: Seq<char>)
    ensures
        is_insertion_point(s, k, insertion_point(s, k)),
    decreases s.len(),
{
    if s.len() == 0 {
        assert(is_insertion_point(s, k, 0));
    } else {
        let init = s.drop_last();
        lemma_insertion_point_exists(init, k);
        let p = insertion_point(init, k);
        assert(is_insertion_point(init, k, p));
        assert forall|j: int| 0 <= j < p implies key_lt(#[trigger] s[j].0@, k) by {
            assert(init[j] == s[j]);
            assert(key_lt(init[j].0@, k));
        }
        if p < init.len() {
            assert(init[p] == s[p]);
            assert(is_insertion_point(s, k, p));
        } else if key_lt(s.last().0@, k) {
            assert forall|j: int| 0 <= j < s.len() implies key_lt(#[trigger] s[j].0@, k) by {
                if j < p {
                    assert(key_lt(s[j].0@, k));
                }
            }
            assert(is_insertion_point(s, k, s.len() as int));
        } else {
            assert(is_insertion_point(s, k, init.len() as int));
        }
    }
}

pub proof fn lemma_store<V>(s: Seq<(String, V)>, k: String, v: V)
    requires
        ordered_keys(s),
    ensures
        ordered_keys(store(s, k, v)),
        unique_keys(store(s, k, v)),
        lookup(store(s, k, v), k@) == Some(v),
        forall|q: Seq<char>| q != k@ ==> lookup(store(s, k, v), q) == lookup(s, q),
        forall|q: Seq<char>| has_key(store(s, k, v), q) <==> (q == k@ || has_key(s, q)),
{
    lemma_ordered_unique(s);
    let t = store(s, k, v);
    if has_key(s, k@) {
        let i = key_index(s, k@);
        assert(t.len() == s.len());
        assert forall|a: int, b: int| 0 <= a < b < t.len() implies key_lt(
            #[trigger] t[a].0@,
            #[trigger] t[b].0@,
        ) by {
            assert(key_lt(s[a].0@, s[b].0@));
        }
        assert forall|q: Seq<char>| has_key(t, q) <==> (q == k@ || has_key(s, q)) by {
            if has_key(s, q) {
                let j = choose|j: int| 0 <= j < s.len() && s[j].0@ == q;
                assert(t[j].0@ == q);
            }
            if has_key(t, q) {
                let j = choose|j: int| 0 <= j < t.len() && t[j].0@ == q;
                assert(s[j].0@ == q);
            }
        }
        lemma_ordered_unique(t);
        assert(t[i].0@ == k@);
        lemma_key_index(t, i);
        assert forall|q: Seq<char>| q != k@ implies lookup(t, q) == lookup(s, q) by {
            if has_key(s, q) {
                let j = key_index(s, q);
                lemma_key_index(s, j);
                lemma_key_index(t, j);
            }
        }
    } else {
        lemma_insertion_point_exists(s, k@);
        lemma_key_order();
        let p = insertion_point(s, k@);
        assert(t == s.insert(p, (k, v)));
        assert(t.len() == s.len() + 1);
        assert forall|j: int| 0 <= j < t.len() implies #[trigger] t[j] == if j < p {
            s[j]
        } else if j == p {
            (k, v)
        } else {
            s[j - 1]
        } by {}
        if p < s.len() {
            assert(s[p].0@ != k@);
            assert(key_lt(k@, s[p].0@));
        }
        assert forall|a: int, b: int| 0 <= a < b < t.len() implies key_lt(
            #[trigger] t[a].0@,
            #[trigger] t[b].0@,
        ) by {
            if b < p {
                assert(key_lt(s[a].0@, s[b].0@));
            } else if b == p {
                assert(key_lt(s[a].0@, k@));
            } else if a < p {
                assert(key_lt(s[a].0@, s[b - 1].0@));
            } else if a == p {
                if b - 1 > p {
                    assert(key_lt(s[p].0@, s[b - 1].0@));
                }
            } else {
                assert(key_lt(s[a - 1].0@, s[b - 1].0@));
            }
        }
        lemma_ordered_unique(t);
        assert(t[p].0@ == k@);
        assert forall|q: Seq<char>| has_key(t, q) <==> (q == k@ || has_key(s, q)) by {
            if has_key(s, q) {
                let j = choose|j: int| 0 <= j < s.len() && s[j].0@ == q;
                if j < p {
                    assert(t[j].0@ == q);
                } else {
                    assert(t[j + 1].0@ == q);
                }
            }
            if has_key(t, q) && q != k@ {
                let j = choose|j: int| 0 <= j < t.len() && t[j].0@ == q;
                if j < p {
                    assert(s[j].0@ == q);
                } else {
                    assert(s[j - 1].0@ == q);
                }
            }
        }
        lemma_key_index(t, p);
        assert forall|q: Seq<char>| q != k@ implies lookup(t, q) == lookup(s, q) by {
            if has_key(s, q) {
                let j = key_index(s, q);
                lemma_key_index(s, j);
                if j < p {
                    lemma_key_index(t, j);
                } else {
                    lemma_key_index(t, j + 1);
                }
            }
        }
    }
}

pub proof fn lemma_discard<V>(s: Seq<(String, V)>, k: Seq<char>)
    requires
        ordered_keys(s),
    ensures
        ordered_keys(discard(s, k)),
        unique_keys(discard(s, k)),
        !has_key(discard(s, k), k),
        forall|q: Seq<char>| q != k ==> lookup(discard(s, k), q) == lookup(s, q),
        forall|q: Seq<char>| has_key(discard(s, k), q) <==> (q != k && has_key(s, q)),
{
    lemma_ordered_unique(s);
    let t = discard(s, k);
    if has_key(s, k) {
        let i = key_index(s, k);
        assert forall|a: int, b: int| 0 <= a < b < t.len() implies key_lt(
            #[trigger] t[a].0@,
            #[trigger] t[b].0@,
        ) by {
            let a2 = if a < i { a } else { a + 1 };
            let b2 = if b < i { b } else { b + 1 };
            assert(t[a] == s[a2]);
            assert(t[b] == s[b2]);
            assert(key_lt(s[a2].0@, s[b2].0@));
        }
        assert(unique_keys(t)) by {
            assert forall|a: int, b: int|
                0 <= a < t.len() && 0 <= b < t.len() && a != b implies t[a].0@ != t[b].0@ by {
                let a2 = if a < i { a } else { a + 1 };
                let b2 = if b < i { b } else { b + 1 };
                assert(t[a] == s[a2]);
                assert(t[b] == s[b2]);
            }
        }
        assert forall|q: Seq<char>| has_key(t, q) <==> (q != k && has_key(s, q)) by {
            if has_key(t, q) {
                let j = choose|j: int| 0 <= j < t.len() && t[j].0@ == q;
                let j2 = if j < i { j } else { j + 1 };
                assert(t[j] == s[j2]);
            }
            if q != k && has_key(s, q) {
                let j = choose|j: int| 0 <= j < s.len() && s[j].0@ == q;
                assert(j != i);
                let j2 = if j < i { j } else { j - 1 };
                assert(t[j2] == s[j]);
            }
        }
        assert forall|q: Seq<char>| q != k implies lookup(t, q) == lookup(s, q) by {
            if has_key(s, q) {
                let j = key_index(s, q);
                lemma_key_index(s, j);
                assert(j != i);
                let j2 = if j < i { j } else { j - 1 };
                assert(t[j2] == s[j]);
                lemma_key_index(t, j2);
            }
        }
    }
}

/// Whether two strings hold the same characters, decided on their bytes.
pub fn same_text(a: &str, b: &str) -> (r: bool)
    ensures
        r == (a@ == b@),
{
    let x = a.as_bytes();
    let y = b.as_bytes();
    proof {
        encode_utf8_decode_utf8(a@);
        encode_utf8_decode_utf8(b@);
    }
    if x.len() != y.len() {
        return false;
    }
    let mut i: usize = 0;
    while i < x.len()
        invariant
            x@ == encode_utf8(a@),
            y@ == encode_utf8(b@),
            x@.len() == y@.len(),
            0 <= i <= x@.len(),
            forall|j: int| 0 <= j < i ==> x@[j] == y@[j],
        decreases x@.len() - i,
    {
        if x[i] != y[i] {
            return false;
        }
        i = i + 1;
    }
    assert(x@ =~= y@);
    assert(decode_utf8(x@) == a@);
    true
}

/// The position of the entry with key `key`, if any.
pub fn find_key<V>(entries: &Vec<(String, V)>, key: &str) -> (r: Option<usize>)
    requires
        ordered_keys(entries@),
    ensures
        r is Some <==> has_key(entries@, key@),
        r matches Some(i) ==> i == key_index(entries@, key@) && i < entries@.len(),
{
    proof {
        lemma_ordered_unique(entries@);
    }
    let mut i: usize = 0;
    while i < entries.len()
        invariant
            0 <= i <= entries@.len(),
            unique_keys(entries@),
            forall|j: int| 0 <= j < i ==> entries@[j].0@ != key@,
        decreases entries@.len() - i,
    {
        if same_text(entries[i].0.as_str(), key) {
            proof {
                lemma_key_index(entries@, i as int);
            }
            return Some(i);
        }
        i = i + 1;
    }
    None
}

/// Compares two names in `key_lt` order: negative, zero or positive.
pub fn compare_text(a: &str, b: &str) -> (r: i8)
    ensures
        r < 0 <==> key_lt(a@, b@),
        r == 0 <==> a@ == b@,
        r > 0 <==> key_lt(b@, a@),
{
    let x = a.as_bytes();
    let y = b.as_bytes();
    proof {
        lemma_key_order();
        encode_utf8_decode_utf8(a@);
        encode_utf8_decode_utf8(b@);
        assert(x@.skip(0) =~= x@);
        assert(y@.skip(0) =~= y@);
    }
    let mut i: usize = 0;
    while i < x.len() && i < y.len()
        invariant
            x@ == encode_utf8(a@),
            y@ == encode_utf8(b@),
            0 <= i <= x@.len(),
            i <= y@.len(),
            forall|j: int| 0 <= j < i ==> x@[j] == y@[j],
            bytes_lt(x@, y@) == bytes_lt(x@.skip(i as int), y@.skip(i as int)),
            bytes_lt(y@, x@) == bytes_lt(y@.skip(i as int), x@.skip(i as int)),
        decreases x@.len() - i,
    {
        if x[i] != y[i] {
            if x[i] < y[i] {
                return -1;
            } else {
                return 1;
            }
        }
        proof {
            assert(x@.skip(i as int).drop_first() =~= x@.skip(i as int + 1));
            assert(y@.skip(i as int).drop_first() =~= y@.skip(i as int + 1));
        }
        i = i + 1;
    }
    if x.len() < y.len() {
        -1
    } else if y.len() < x.len() {
        1
    } else {
        assert(x@ =~= y@);
        assert(decode_utf8(x@) == a@);
        0
    }
}

/// Stores `value` under `key`: in place when the name is present, at its
/// place in name order otherwise.
pub fn store_entry<V>(entries: &mut Vec<(String, V)>, key: String, value: V)
    requires
        ordered_keys(old(entries)@),
    ensures
        final(entries)@ == store(old(entries)@, key, value),
        ordered_keys(final(entries)@),
{
    proof {
        lemma_store(entries@, key, value);
        lemma_ordered_unique(entries@);
    }
    let mut i: usize = 0;
    while i < entries.len()
        invariant
            0 <= i <= entries@.len(),
            entries@ == old(entries)@,
            ordered_keys(entries@),
            unique_keys(entries@),
            forall|j: int| 0 <= j < i ==> key_lt(#[trigger] entries@[j].0@, key@),
        decreases entries@.len() - i,
    {
        let c = compare_text(entries[i].0.as_str(), key.as_str());
        if c == 0 {
            proof {
                lemma_key_index(entries@, i as int);
            }
            entries.set(i, (key, value));
            return;
        }
        if c > 0 {
            proof {
                lemma_key_order();
                assert(!has_key(entries@, key@)) by {
                    if has_key(entries@, key@) {
                        let j = choose|j: int| 0 <= j < entries@.len() && entries@[j].0@ == key@;
                        if j > i {
                            assert(key_lt(entries@[i as int].0@, entries@[j].0@));
                        }
                    }
                }
                assert(is_insertion_point(entries@, key@, i as int));
                lemma_insertion_point(entries@, key@, i as int);
            }
            entries.insert(i, (key, value));
            return;
        }
        i = i + 1;
    }
    proof {
        lemma_key_order();
        assert(!has_key(entries@, key@)) by {
            if has_key(entries@, key@) {
                let j = choose|j: int| 0 <= j < entries@.len() && entries@[j].0@ == key@;
                assert(key_lt(entries@[j].0@, key@));
            }
        }
        assert(is_insertion_point(entries@, key@, i as int));
        lemma_insertion_point(entries@, key@, i as int);
    }
    entries.push((key, value));
    proof {
        assert(entries@ =~= old(entries)@.insert(i as int, (key, value)));
    }
}

} // verus!
