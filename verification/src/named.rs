//! Numbers by name, kept in the order of the names.
use crate::binary64::Binary64;
use crate::compiler;
use vstd::prelude::*;
use vstd::utf8::*;

verus! {

/// `a` comes before `b` in the order of a dictionary.
pub open spec fn precedes(a: Seq<u8>, b: Seq<u8>) -> bool {
    exists|k: int|
        0 <= k <= a.len() && k < b.len() && #[trigger] a.take(k) == b.take(k) && (k == a.len()
            || a[k] < b[k])
}

/// A text comes before another, byte by byte.
pub open spec fn text_before(a: Seq<char>, b: Seq<char>) -> bool {
    precedes(encode_utf8(a), encode_utf8(b))
}

/// A list of texts in strictly increasing order.
pub open spec fn increasing(names: Seq<Seq<char>>) -> bool {
    forall|i: int, j: int|
        0 <= i < j < names.len() ==> text_before(#[trigger] names[i], #[trigger] names[j])
}

proof fn lemma_prefix(a: Seq<u8>, b: Seq<u8>, k: int, i: int)
    requires
        0 <= i < k <= a.len(),
        k <= b.len(),
        a.take(k) == b.take(k),
    ensures
        a[i] == b[i],
        a.take(i) == b.take(i),
{
    assert(a.take(k)[i] == a[i]);
    assert(b.take(k)[i] == b[i]);
    assert forall|j: int| 0 <= j < i implies a.take(i)[j] == b.take(i)[j] by {
        assert(a.take(k)[j] == b.take(k)[j]);
    }
    assert(a.take(i) =~= b.take(i));
}

/// No text comes before itself, nor two before each other.
proof fn lemma_asymmetric(a: Seq<u8>, b: Seq<u8>)
    requires
        precedes(a, b),
    ensures
        !precedes(b, a),
        a != b,
{
    let k = choose|k: int|
        0 <= k <= a.len() && k < b.len() && #[trigger] a.take(k) == b.take(k) && (k == a.len()
            || a[k] < b[k]);
    if precedes(b, a) {
        let m = choose|m: int|
            0 <= m <= b.len() && m < a.len() && #[trigger] b.take(m) == a.take(m) && (m == b.len()
                || b[m] < a[m]);
        if k < m {
            lemma_prefix(b, a, m, k);
        } else if m < k {
            lemma_prefix(a, b, k, m);
        }
    }
}

proof fn lemma_transitive(a: Seq<u8>, b: Seq<u8>, c: Seq<u8>)
    requires
        precedes(a, b),
        precedes(b, c),
    ensures
        precedes(a, c),
{
    let k = choose|k: int|
        0 <= k <= a.len() && k < b.len() && #[trigger] a.take(k) == b.take(k) && (k == a.len()
            || a[k] < b[k]);
    let m = choose|m: int|
        0 <= m <= b.len() && m < c.len() && #[trigger] b.take(m) == c.take(m) && (m == b.len()
            || b[m] < c[m]);
    let n = if k <= m {
        k
    } else {
        m
    };
    if n < k {
        lemma_prefix(a, b, k, n);
    }
    if n < m {
        lemma_prefix(b, c, m, n);
    }
    assert(a.take(n) == c.take(n));
}

/// Of two different texts one comes first.
proof fn lemma_total(a: Seq<u8>, b: Seq<u8>, k: int)
    requires
        a != b,
        0 <= k <= a.len(),
        k <= b.len(),
        a.take(k) == b.take(k),
    ensures
        precedes(a, b) || precedes(b, a),
    decreases a.len() - k,
{
    if k == a.len() && k == b.len() {
        assert(a.take(k) =~= a);
        assert(b.take(k) =~= b);
    } else if k == a.len() || k == b.len() {
    } else if a[k] == b[k] {
        assert forall|j: int| 0 <= j < k + 1 implies #[trigger] a.take(k + 1)[j] == b.take(k + 1)[j] by {
            if j < k {
                assert(a.take(k)[j] == b.take(k)[j]);
            }
        }
        assert(a.take(k + 1) =~= b.take(k + 1));
        lemma_total(a, b, k + 1);
    } else {
        assert(a.take(k) == b.take(k));
    }
}

/// Of two different texts one comes first.
pub proof fn lemma_text_total(a: Seq<char>, b: Seq<char>)
    requires
        a != b,
    ensures
        text_before(a, b) || text_before(b, a),
{
    let x = encode_utf8(a);
    let y = encode_utf8(b);
    encode_utf8_decode_utf8(a);
    encode_utf8_decode_utf8(b);
    assert(x.take(0) =~= y.take(0));
    lemma_total(x, y, 0);
}

pub proof fn lemma_text_order(a: Seq<char>, b: Seq<char>)
    requires
        text_before(a, b),
    ensures
        !text_before(b, a),
        a != b,
{
    lemma_asymmetric(encode_utf8(a), encode_utf8(b));
}

/// A text comes before another.
fn text_less(a: &str, b: &str) -> (r: bool)
    ensures
        r == text_before(a@, b@),
{
    let x: &[u8] = a.as_bytes();
    let y: &[u8] = b.as_bytes();
    let mut i: usize = 0;
    assert(x@.take(0) =~= y@.take(0));
    while i < x.len() && i < y.len()
        invariant
            i <= x@.len(),
            i <= y@.len(),
            x@.take(i as int) == y@.take(i as int),
            x@ == encode_utf8(a@),
            y@ == encode_utf8(b@),
        decreases x@.len() - i,
    {
        if x[i] < y[i] {
            return true;
        }
        if y[i] < x[i] {
            proof {
                assert(precedes(y@, x@)) by {
                    assert(y@.take(i as int) == x@.take(i as int));
                }
                lemma_asymmetric(y@, x@);
            }
            return false;
        }
        assert forall|j: int| 0 <= j < i + 1 implies #[trigger] x@.take(i + 1)[j] == y@.take(
            i + 1,
        )[j] by {
            if j < i {
                assert(x@.take(i as int)[j] == y@.take(i as int)[j]);
            }
        }
        assert(x@.take(i + 1) =~= y@.take(i + 1));
        i = i + 1;
    }
    proof {
        if i >= y.len() && i < x.len() {
            assert(y@.take(i as int) == x@.take(i as int));
            assert(precedes(y@, x@));
            lemma_asymmetric(y@, x@);
        } else if i >= y.len() {
            assert(x@.take(i as int) =~= x@);
            assert(y@.take(i as int) =~= y@);
            if precedes(x@, y@) {
                lemma_asymmetric(x@, y@);
            }
        }
    }
    i < y.len()
}

/// The list of a set of texts in increasing order.
pub open spec fn listing(set: Set<Seq<char>>) -> Seq<Seq<char>> {
    choose|names: Seq<Seq<char>>| increasing(names) && names.to_set() == set
}

/// Only one increasing list holds the texts of a set.
pub proof fn lemma_listing(names: Seq<Seq<char>>)
    requires
        increasing(names),
    ensures
        listing(names.to_set()) == names,
{
    let other = listing(names.to_set());
    assert(increasing(other) && other.to_set() == names.to_set());
    lemma_lists_equal(names, other);
}

proof fn lemma_lists_equal(a: Seq<Seq<char>>, b: Seq<Seq<char>>)
    requires
        increasing(a),
        increasing(b),
        a.to_set() == b.to_set(),
    ensures
        a == b,
    decreases a.len(),
{
    if a.len() == 0 {
        if b.len() > 0 {
            assert(b.to_set().contains(b[0]));
            assert(a.to_set().contains(b[0]));
        }
        assert(a =~= b);
    } else {
        assert(a.to_set().contains(a.last()));
        assert(b.to_set().contains(a.last()));
        assert(b.len() > 0);
        assert(b.to_set().contains(b.last()));
        assert(a.to_set().contains(b.last()));
        let i = choose|i: int| 0 <= i < b.len() && b[i] == a.last();
        let j = choose|j: int| 0 <= j < a.len() && a[j] == b.last();
        if i < b.len() - 1 && j < a.len() - 1 {
            assert(text_before(b[i], b[b.len() - 1]));
            assert(text_before(a[j], a[a.len() - 1]));
            lemma_text_order(a.last(), b.last());
        }
        assert(a.last() == b.last());
        let x = a.drop_last();
        let y = b.drop_last();
        assert forall|s: Seq<char>| x.to_set().contains(s) implies y.to_set().contains(s) by {
            let k = choose|k: int| 0 <= k < x.len() && x[k] == s;
            assert(a[k] == s);
            lemma_text_order(a[k], a[a.len() - 1]);
            assert(a.to_set().contains(s));
            assert(b.to_set().contains(s));
            let m = choose|m: int| 0 <= m < b.len() && b[m] == s;
            assert(m < y.len());
            assert(y[m] == s);
        }
        assert forall|s: Seq<char>| y.to_set().contains(s) implies x.to_set().contains(s) by {
            let k = choose|k: int| 0 <= k < y.len() && y[k] == s;
            assert(b[k] == s);
            lemma_text_order(b[k], b[b.len() - 1]);
            assert(b.to_set().contains(s));
            assert(a.to_set().contains(s));
            let m = choose|m: int| 0 <= m < a.len() && a[m] == s;
            assert(m < x.len());
            assert(x[m] == s);
        }
        assert(x.to_set() =~= y.to_set());
        lemma_lists_equal(x, y);
        assert(a =~= x.push(a.last()));
        assert(b =~= y.push(b.last()));
    }
}

/// Numbers by name.
#[derive(Debug, PartialEq)]
pub struct NamedValues {
    names: Vec<String>,
    values: Vec<Binary64>,
}

impl View for NamedValues {
    type V = Map<Seq<char>, Binary64>;

    closed spec fn view(&self) -> Map<Seq<char>, Binary64> {
        paired(self.names(), self.values@)
    }
}

/// The map that two lists of names and numbers stand for.
pub open spec fn paired(names: Seq<Seq<char>>, values: Seq<Binary64>) -> Map<Seq<char>, Binary64> {
    Map::new(|n: Seq<char>| names.contains(n), |n: Seq<char>| values[names.index_of(n)])
}

impl Clone for NamedValues {
    fn clone(&self) -> (r: NamedValues)
        ensures
            r@ == self@,
            r.names() == self.names(),
            r.wf() == self.wf(),
    {
        let mut names: Vec<String> = Vec::new();
        let mut values: Vec<Binary64> = Vec::new();
        let mut i: usize = 0;
        while i < self.names.len()
            invariant
                i <= self.names.len(),
                names@ =~= self.names@.take(i as int),
            decreases self.names.len() - i,
        {
            names.push(self.names[i].clone());
            i = i + 1;
        }
        let mut i: usize = 0;
        while i < self.values.len()
            invariant
                i <= self.values.len(),
                values@ =~= self.values@.take(i as int),
            decreases self.values.len() - i,
        {
            values.push(self.values[i]);
            i = i + 1;
        }
        assert(names@ =~= self.names@);
        assert(values@ =~= self.values@);
        NamedValues { names, values }
    }
}

impl NamedValues {
    /// The names, in increasing order.
    pub closed spec fn names(self) -> Seq<Seq<char>> {
        compiler::texts(self.names@)
    }

    /// The names increase, and each has one number.
    pub closed spec fn wf(self) -> bool {
        &&& self.names@.len() == self.values@.len()
        &&& increasing(self.names())
    }

    /// The listed names are those that have a number.
    pub proof fn lemma_names(self)
        requires
            self.wf(),
        ensures
            increasing(self.names()),
            self.names().to_set() == self@.dom(),
            listing(self@.dom()) == self.names(),
    {
        assert(self.names().to_set() =~= self@.dom());
        lemma_listing(self.names());
    }

    /// No name has a number.
    pub fn new() -> (r: NamedValues)
        ensures
            r.wf(),
            r@ == Map::<Seq<char>, Binary64>::empty(),
    {
        let r = NamedValues { names: Vec::new(), values: Vec::new() };
        assert(r@ =~= Map::<Seq<char>, Binary64>::empty());
        r
    }

    /// Number of names.
    pub fn len(&self) -> (r: usize)
        ensures
            r == self.names().len(),
    {
        self.names.len()
    }

    /// The name at a place of the order.
    pub fn name_at(&self, i: usize) -> (r: &String)
        requires
            i < self.names().len(),
        ensures
            r@ == self.names()[i as int],
    {
        &self.names[i]
    }

    /// The number at a place of the order.
    pub fn value_at(&self, i: usize) -> (r: Binary64)
        requires
            self.wf(),
            i < self.names().len(),
        ensures
            self@.dom().contains(self.names()[i as int]),
            r == self@[self.names()[i as int]],
    {
        proof {
            lemma_place(self.names(), i as int);
        }
        self.values[i]
    }

    /// The number of a name, where it has one.
    pub fn get(&self, name: &str) -> (r: Option<Binary64>)
        requires
            self.wf(),
        ensures
            r == (if self@.dom().contains(name@) {
                Some(self@[name@])
            } else {
                None
            }),
    {
        let wanted: String = name.to_owned();
        let mut i: usize = 0;
        while i < self.names.len()
            invariant
                i <= self.names.len(),
                self.wf(),
                wanted@ == name@,
                forall|k: int| 0 <= k < i ==> #[trigger] self.names()[k] != name@,
            decreases self.names.len() - i,
        {
            if self.names[i] == wanted {
                proof {
                    assert(self.names()[i as int] == name@);
                    lemma_place(self.names(), i as int);
                }
                return Some(self.values[i]);
            }
            i = i + 1;
        }
        None
    }

    /// Give a name a number, in place of the one that it may have.
    #[verifier::loop_isolation(false)]
    #[verifier::rlimit(40)]
    pub fn insert(&mut self, name: &str, value: Binary64)
        requires
            old(self).wf(),
        ensures
            final(self).wf(),
            final(self)@ == old(self)@.insert(name@, value),
    {
        let ghost before = *self;
        let ghost list = self.names();
        let ghost target = self@.insert(name@, value);
        let wanted: String = name.to_owned();
        let mut i: usize = 0;
        while i < self.names.len() && text_less(self.names[i].as_str(), name)
            invariant
                i <= self.names.len(),
                forall|k: int| 0 <= k < i ==> text_before(#[trigger] list[k], name@),
            decreases self.names.len() - i,
        {
            i = i + 1;
        }
        if i < self.names.len() && self.names[i] == wanted {
            self.values.set(i, value);
            proof {
                assert(list[i as int] == name@);
                assert(self.names() =~= list);
                assert forall|n: Seq<char>| #[trigger] target.dom().contains(n) implies self@[n]
                    == target[n] by {
                    if list.contains(n) {
                        let k = list.index_of(n);
                        lemma_place(list, k);
                        lemma_place(list, i as int);
                    }
                }
                assert(self@ =~= target);
            }
        } else {
            proof {
                assert forall|k: int| i <= k < list.len() implies text_before(
                    name@,
                    #[trigger] list[k],
                ) by {
                    lemma_text_total(list[i as int], name@);
                    if i < k {
                        assert(text_before(list[i as int], list[k]));
                        lemma_transitive(
                            encode_utf8(name@),
                            encode_utf8(list[i as int]),
                            encode_utf8(list[k]),
                        );
                    }
                }
            }
            self.names.insert(i, wanted);
            self.values.insert(i, value);
            proof {
                let after = self.names();
                assert(after =~= list.insert(i as int, name@));
                assert forall|p: int, q: int| 0 <= p < q < after.len() implies text_before(
                    #[trigger] after[p],
                    #[trigger] after[q],
                ) by {
                    let p0 = if p < i {
                        p
                    } else {
                        p - 1
                    };
                    let q0 = if q < i {
                        q
                    } else {
                        q - 1
                    };
                    if p == i {
                        assert(after[q] == list[q0]);
                    } else if q == i {
                        assert(after[p] == list[p0]);
                    } else {
                        assert(after[p] == list[p0] && after[q] == list[q0]);
                        assert(text_before(list[p0], list[q0]));
                    }
                }
                lemma_place(after, i as int);
                assert(after[i as int] == name@);
                assert forall|n: Seq<char>| after.contains(n) == (n == name@ || list.contains(n))
                    by {
                    if list.contains(n) {
                        let k = list.index_of(n);
                        assert(after[if k < i {
                            k
                        } else {
                            k + 1
                        }] == n);
                    }
                    if after.contains(n) && n != name@ {
                        let k = after.index_of(n);
                        assert(list[if k < i {
                            k
                        } else {
                            k - 1
                        }] == n);
                    }
                }
                assert forall|n: Seq<char>| #[trigger] target.dom().contains(n) implies self@[n]
                    == target[n] by {
                    if n != name@ {
                        let k = list.index_of(n);
                        assert(list[k] == n);
                        let m = if k < i {
                            k
                        } else {
                            k + 1
                        };
                        assert(after[m] == n);
                        lemma_place(after, m);
                        lemma_place(list, k);
                    }
                }
                assert(self@ =~= target);
            }
        }
    }
}

/// In an increasing list a text has one place.
proof fn lemma_place(names: Seq<Seq<char>>, i: int)
    requires
        increasing(names),
        0 <= i < names.len(),
    ensures
        names.index_of(names[i]) == i,
        names.contains(names[i]),
{
    let k = names.index_of(names[i]);
    assert(names[i] == names[i]);
    assert(0 <= k < names.len() && names[k] == names[i]);
    if k < i {
        lemma_text_order(names[k], names[i]);
    } else if i < k {
        lemma_text_order(names[i], names[k]);
    }
}

} // verus!
