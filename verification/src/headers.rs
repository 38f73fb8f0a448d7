//! Event headers: a map from names to values with a fixed order.
use vstd::prelude::*;
use vstd::utf8::*;

verus! {

/// Byte strings in dictionary order.
pub open spec fn bytes_before(left: Seq<u8>, right: Seq<u8>) -> bool {
    exists|at: int| #[trigger] parts_at(left, right, at)
}

/// The first place where two byte strings part, the left one being smaller.
pub open spec fn parts_at(left: Seq<u8>, right: Seq<u8>, at: int) -> bool {
    &&& 0 <= at <= left.len()
    &&& at < right.len()
    &&& left.take(at) == right.take(at)
    &&& at == left.len() || left[at] < right[at]
}

/// Names in the order of their UTF-8 bytes.
pub open spec fn name_before(left: Seq<char>, right: Seq<char>) -> bool {
    bytes_before(encode_utf8(left), encode_utf8(right))
}

/// Whether the names are in strictly ascending order.
pub open spec fn ascending(pairs: Seq<(Seq<char>, Seq<char>)>) -> bool {
    forall|i: int, j: int|
        #![trigger pairs[i], pairs[j]]
        0 <= i < j < pairs.len() ==> name_before(pairs[i].0, pairs[j].0)
}

/// The map that results from inserting the pairs one by one.
pub open spec fn map_of(pairs: Seq<(Seq<char>, Seq<char>)>) -> Map<Seq<char>, Seq<char>>
    decreases pairs.len(),
{
    if pairs.len() == 0 {
        Map::empty()
    } else {
        map_of(pairs.drop_last()).insert(pairs.last().0, pairs.last().1)
    }
}

/// Metadata of an event (correlation ids, trace context, content type, ...):
/// a map from names to values, kept in the order of the names.
#[derive(Debug, PartialEq, Eq)]
pub struct Headers {
    entries: Vec<(String, String)>,
}

impl View for Headers {
    type V = Map<Seq<char>, Seq<char>>;

    open spec fn view(&self) -> Map<Seq<char>, Seq<char>> {
        map_of(self.pairs())
    }
}

/// How two names compare.
enum Rank {
    Before,
    Same,
    After,
}

/// Compares byte strings in dictionary order.
fn collate(left: &[u8], right: &[u8]) -> (r: Rank)
    ensures
        match r {
            Rank::Before => bytes_before(left@, right@),
            Rank::Same => left@ == right@,
            Rank::After => bytes_before(right@, left@),
        },
{
    let mut i: usize = 0;
    while i < left.len() && i < right.len()
        invariant
            i <= left.len(),
            i <= right.len(),
            left@.take(i as int) == right@.take(i as int),
        decreases left.len() - i,
    {
        if left[i] < right[i] {
            assert(parts_at(left@, right@, i as int));
            return Rank::Before;
        }
        if right[i] < left[i] {
            assert(parts_at(right@, left@, i as int));
            return Rank::After;
        }
        assert(left@.take(i + 1) =~= left@.take(i as int).push(left@[i as int]));
        assert(right@.take(i + 1) =~= right@.take(i as int).push(right@[i as int]));
        i = i + 1;
    }
    if i < right.len() {
        assert(parts_at(left@, right@, i as int));
        Rank::Before
    } else if i < left.len() {
        assert(parts_at(right@, left@, i as int));
        Rank::After
    } else {
        assert(left@.take(i as int) =~= left@);
        assert(right@.take(i as int) =~= right@);
        Rank::Same
    }
}

/// The pairs of a list of entries.
spec fn pairs_of(entries: Seq<(String, String)>) -> Seq<(Seq<char>, Seq<char>)> {
    Seq::new(entries.len(), |i: int| (entries[i].0@, entries[i].1@))
}

impl Headers {
    /// The entries in the order of their names.
    pub closed spec fn pairs(self) -> Seq<(Seq<char>, Seq<char>)> {
        pairs_of(self.entries@)
    }

    #[verifier::type_invariant]
    spec fn ordered(self) -> bool {
        ascending(self.pairs())
    }

    /// No headers.
    pub fn new() -> (r: Headers)
        ensures
            r@ == Map::<Seq<char>, Seq<char>>::empty(),
    {
        Headers { entries: Vec::new() }
    }

    /// Where the name stands, or belongs.
    fn find(&self, name: &str) -> (r: (usize, bool))
        ensures
            ascending(self.pairs()),
            r.0 <= self.pairs().len(),
            forall|i: int|
                0 <= i < r.0 ==> name_before(#[trigger] self.pairs()[i].0, name@),
            r.1 ==> r.0 < self.pairs().len() && self.pairs()[r.0 as int].0 == name@,
            !r.1 ==> (forall|i: int|
                r.0 <= i < self.pairs().len() ==> name_before(
                    name@,
                    #[trigger] self.pairs()[i].0,
                )),
    {
        proof {
            use_type_invariant(self);
        }
        let ghost pairs = self.pairs();
        let wanted: &[u8] = name.as_bytes();
        let mut i: usize = 0;
        while i < self.entries.len()
            invariant
                i <= self.entries.len(),
                pairs == pairs_of(self.entries@),
                pairs == self.pairs(),
                ascending(pairs),
                wanted@ == encode_utf8(name@),
                forall|k: int| 0 <= k < i ==> name_before(#[trigger] pairs[k].0, name@),
            decreases self.entries.len() - i,
        {
            assert(pairs[i as int].0 == self.entries@[i as int].0@);
            match collate(self.entries[i].0.as_str().as_bytes(), wanted) {
                Rank::Before => {
                    i = i + 1;
                },
                Rank::Same => {
                    proof {
                        encode_utf8_decode_utf8(name@);
                        encode_utf8_decode_utf8(pairs[i as int].0);
                    }
                    return (i, true);
                },
                Rank::After => {
                    proof {
                        assert forall|k: int| i <= k < pairs.len() implies name_before(
                            name@,
                            #[trigger] pairs[k].0,
                        ) by {
                            if k > i {
                                lemma_before_transitive(
                                    encode_utf8(name@),
                                    encode_utf8(pairs[i as int].0),
                                    encode_utf8(pairs[k].0),
                                );
                            }
                        }
                    }
                    return (i, false);
                },
            }
        }
        (i, false)
    }

    /// The value under a name.
    pub fn get(&self, name: &str) -> (r: Option<&String>)
        ensures
            match r {
                Some(value) => self@.contains_key(name@) && self@[name@] == value@,
                None => !self@.contains_key(name@),
            },
    {
        let (at, found) = self.find(name);
        proof {
            lemma_names(self.pairs());
            if found {
                lemma_value(self.pairs(), at as int);
            } else {
                lemma_absent(self.pairs(), name@, at as int);
            }
        }
        if found {
            Some(&self.entries[at].1)
        } else {
            None
        }
    }

    /// Set the value under a name; the value that it replaces, if any.
    pub fn insert(&mut self, name: String, value: String) -> (r: Option<String>)
        ensures
            final(self)@ == old(self)@.insert(name@, value@),
            match r {
                Some(before) => old(self)@.contains_key(name@) && old(self)@[name@] == before@,
                None => !old(self)@.contains_key(name@),
            },
    {
        let (at, found) = self.find(name.as_str());
        let ghost before = self.pairs();
        let ghost pair = (name@, value@);
        let mut entries: Vec<(String, String)> = Vec::new();
        std::mem::swap(&mut entries, &mut self.entries);
        proof {
            lemma_names(before);
            if found {
                lemma_value(before, at as int);
                lemma_replaced(before, at as int, pair);
            } else {
                lemma_absent(before, name@, at as int);
                lemma_inserted(before, at as int, pair);
            }
        }
        if found {
            let replaced = entries.remove(at);
            entries.insert(at, (name, value));
            assert(pairs_of(entries@) =~= before.update(at as int, pair));
            self.entries = entries;
            Some(replaced.1)
        } else {
            entries.insert(at, (name, value));
            assert(pairs_of(entries@) =~= before.insert(at as int, pair));
            self.entries = entries;
            None
        }
    }

    /// The number of headers.
    pub fn len(&self) -> (r: usize)
        ensures
            r == self@.dom().len(),
            self@.dom().finite(),
    {
        proof {
            use_type_invariant(self);
            lemma_size(self.pairs());
        }
        self.entries.len()
    }

    /// Whether there are no headers.
    pub fn is_empty(&self) -> (r: bool)
        ensures
            r == (self@ == Map::<Seq<char>, Seq<char>>::empty()),
    {
        proof {
            use_type_invariant(self);
            if self.pairs().len() > 0 {
                assert(self@.contains_key(self.pairs().last().0));
            }
        }
        self.entries.len() == 0
    }

    /// The entries in the order of their names.
    pub fn entries(&self) -> (r: &Vec<(String, String)>)
        ensures
            ascending(self.pairs()),
            r@.len() == self.pairs().len(),
            forall|i: int|
                #![trigger r@[i]]
                #![trigger self.pairs()[i]]
                0 <= i < r@.len() ==> self.pairs()[i] == (r@[i].0@, r@[i].1@),
    {
        proof {
            use_type_invariant(self);
        }
        &self.entries
    }
}

impl Default for Headers {
    fn default() -> (r: Headers)
        ensures
            r@ == Map::<Seq<char>, Seq<char>>::empty(),
    {
        Headers::new()
    }
}

impl Clone for Headers {
    fn clone(&self) -> (r: Headers)
        ensures
            r@ == self@,
            r.pairs() == self.pairs(),
    {
        proof {
            use_type_invariant(self);
        }
        let mut entries: Vec<(String, String)> = Vec::new();
        let mut i: usize = 0;
        while i < self.entries.len()
            invariant
                i <= self.entries.len(),
                entries@ == self.entries@.take(i as int),
            decreases self.entries.len() - i,
        {
            entries.push((self.entries[i].0.clone(), self.entries[i].1.clone()));
            i = i + 1;
        }
        assert(entries@ =~= self.entries@);
        Headers { entries }
    }
}

/// Dictionary order is transitive.
proof fn lemma_before_transitive(a: Seq<u8>, b: Seq<u8>, c: Seq<u8>)
    requires
        bytes_before(a, b),
        bytes_before(b, c),
    ensures
        bytes_before(a, c),
{
    let i = choose|at: int| #[trigger] parts_at(a, b, at);
    let j = choose|at: int| #[trigger] parts_at(b, c, at);
    let at = if i < j {
        i
    } else {
        j
    };
    assert(a.take(at) =~= a.take(i).take(at));
    assert(b.take(at) =~= b.take(i).take(at));
    assert(b.take(at) =~= b.take(j).take(at));
    assert(c.take(at) =~= c.take(j).take(at));
    if i < j {
        assert(b.take(j)[i] == c.take(j)[i]);
    } else if j < i {
        assert(a.take(i)[j] == b.take(i)[j]);
    }
    assert(parts_at(a, c, at));
}

/// Nothing comes before itself.
proof fn lemma_before_irreflexive(a: Seq<u8>)
    ensures
        !bytes_before(a, a),
{
}

/// Of two byte strings at most one comes before the other.
proof fn lemma_before_asymmetric(a: Seq<u8>, b: Seq<u8>)
    requires
        bytes_before(a, b),
    ensures
        !bytes_before(b, a),
{
    if bytes_before(b, a) {
        lemma_before_transitive(a, b, a);
        lemma_before_irreflexive(a);
    }
}

/// The names of the map are those of the pairs.
proof fn lemma_names(pairs: Seq<(Seq<char>, Seq<char>)>)
    ensures
        forall|name: Seq<char>| #[trigger]
            map_of(pairs).contains_key(name) <==> exists|i: int|
                0 <= i < pairs.len() && #[trigger] pairs[i].0 == name,
    decreases pairs.len(),
{
    if pairs.len() > 0 {
        let rest = pairs.drop_last();
        lemma_names(rest);
        assert forall|name: Seq<char>| #[trigger] map_of(pairs).contains_key(name) implies exists|
            i: int,
        | 0 <= i < pairs.len() && #[trigger] pairs[i].0 == name by {
            if map_of(rest).contains_key(name) {
                let i = choose|i: int| 0 <= i < rest.len() && #[trigger] rest[i].0 == name;
                assert(pairs[i].0 == name);
            } else {
                assert(pairs[pairs.len() - 1].0 == name);
            }
        }
        assert forall|name: Seq<char>|
            (exists|i: int| 0 <= i < pairs.len() && #[trigger] pairs[i].0 == name) implies #[trigger] map_of(
            pairs,
        ).contains_key(name) by {
            let i = choose|i: int| 0 <= i < pairs.len() && #[trigger] pairs[i].0 == name;
            if i < rest.len() {
                assert(rest[i].0 == name);
                assert(map_of(rest).contains_key(name));
            }
        }
    }
}

/// The value of the map under the name of a pair is that pair's.
proof fn lemma_value(pairs: Seq<(Seq<char>, Seq<char>)>, at: int)
    requires
        ascending(pairs),
        0 <= at < pairs.len(),
    ensures
        map_of(pairs)[pairs[at].0] == pairs[at].1,
        map_of(pairs).contains_key(pairs[at].0),
    decreases pairs.len(),
{
    if at < pairs.len() - 1 {
        let rest = pairs.drop_last();
        assert(forall|i: int| 0 <= i < rest.len() ==> rest[i] == pairs[i]);
        lemma_value(rest, at);
        lemma_before_irreflexive(encode_utf8(pairs[at].0));
        assert(name_before(pairs[at].0, pairs[pairs.len() - 1].0));
    }
}

/// A name that fits between two neighbours is none of theirs.
proof fn lemma_absent(pairs: Seq<(Seq<char>, Seq<char>)>, name: Seq<char>, at: int)
    requires
        forall|i: int| 0 <= i < at ==> name_before(#[trigger] pairs[i].0, name),
        forall|i: int| at <= i < pairs.len() ==> name_before(name, #[trigger] pairs[i].0),
    ensures
        !map_of(pairs).contains_key(name),
{
    lemma_names(pairs);
    lemma_before_irreflexive(encode_utf8(name));
}

/// Putting a new name in its place keeps the order and extends the map.
proof fn lemma_inserted(
    pairs: Seq<(Seq<char>, Seq<char>)>,
    at: int,
    pair: (Seq<char>, Seq<char>),
)
    requires
        ascending(pairs),
        0 <= at <= pairs.len(),
        forall|i: int| 0 <= i < at ==> name_before(#[trigger] pairs[i].0, pair.0),
        forall|i: int| at <= i < pairs.len() ==> name_before(pair.0, #[trigger] pairs[i].0),
    ensures
        ascending(pairs.insert(at, pair)),
        map_of(pairs.insert(at, pair)) == map_of(pairs).insert(pair.0, pair.1),
    decreases pairs.len(),
{
    let after = pairs.insert(at, pair);
    assert forall|i: int, j: int|
        #![trigger after[i], after[j]]
        0 <= i < j < after.len() implies name_before(after[i].0, after[j].0) by {
        if i < at {
            assert(after[i] == pairs[i]);
        } else if i > at {
            assert(after[i] == pairs[i - 1]);
        }
        if j < at {
            assert(after[j] == pairs[j]);
        } else if j > at {
            assert(after[j] == pairs[j - 1]);
        }
    }
    if at < pairs.len() {
        let rest = pairs.drop_last();
        let last = pairs.last();
        assert(forall|i: int| 0 <= i < rest.len() ==> rest[i] == pairs[i]);
        lemma_inserted(rest, at, pair);
        assert(after.drop_last() =~= rest.insert(at, pair));
        assert(after.last() == last);
        assert(name_before(pair.0, pairs[pairs.len() - 1].0));
        lemma_before_irreflexive(encode_utf8(pair.0));
        assert(map_of(rest).insert(pair.0, pair.1).insert(last.0, last.1) =~= map_of(rest).insert(
            last.0,
            last.1,
        ).insert(pair.0, pair.1));
    } else {
        assert(after.drop_last() =~= pairs);
    }
}

/// Replacing the value of a pair keeps the order and updates the map.
proof fn lemma_replaced(
    pairs: Seq<(Seq<char>, Seq<char>)>,
    at: int,
    pair: (Seq<char>, Seq<char>),
)
    requires
        ascending(pairs),
        0 <= at < pairs.len(),
        pairs[at].0 == pair.0,
    ensures
        ascending(pairs.update(at, pair)),
        map_of(pairs.update(at, pair)) == map_of(pairs).insert(pair.0, pair.1),
    decreases pairs.len(),
{
    let after = pairs.update(at, pair);
    assert forall|i: int, j: int|
        #![trigger after[i], after[j]]
        0 <= i < j < after.len() implies name_before(after[i].0, after[j].0) by {
        assert(name_before(pairs[i].0, pairs[j].0));
    }
    let rest = pairs.drop_last();
    let last = pairs.last();
    assert(forall|i: int| 0 <= i < rest.len() ==> rest[i] == pairs[i]);
    if at < pairs.len() - 1 {
        lemma_replaced(rest, at, pair);
        assert(after.drop_last() =~= rest.update(at, pair));
        assert(name_before(pairs[at].0, pairs[pairs.len() - 1].0));
        lemma_before_irreflexive(encode_utf8(pair.0));
        assert(map_of(rest).insert(pair.0, pair.1).insert(last.0, last.1) =~= map_of(rest).insert(
            last.0,
            last.1,
        ).insert(pair.0, pair.1));
    } else {
        assert(after.drop_last() =~= rest);
        assert(map_of(rest).insert(pair.0, pair.1) =~= map_of(rest).insert(
            pair.0,
            last.1,
        ).insert(pair.0, pair.1));
    }
}

/// The map has one name for each pair.
proof fn lemma_size(pairs: Seq<(Seq<char>, Seq<char>)>)
    requires
        ascending(pairs),
    ensures
        map_of(pairs).dom().finite(),
        map_of(pairs).dom().len() == pairs.len(),
    decreases pairs.len(),
{
    if pairs.len() > 0 {
        let rest = pairs.drop_last();
        let last = pairs.last();
        assert(forall|i: int| 0 <= i < rest.len() ==> rest[i] == pairs[i]);
        lemma_size(rest);
        assert forall|i: int| 0 <= i < rest.len() implies name_before(
            #[trigger] rest[i].0,
            last.0,
        ) by {
            assert(name_before(pairs[i].0, pairs[pairs.len() - 1].0));
        }
        lemma_absent(rest, last.0, rest.len() as int);
        assert(map_of(pairs).dom() =~= map_of(rest).dom().insert(last.0));
    }
}

/// The order of the entries is a function of the map alone: equal headers
/// list equal entries.
pub proof fn order_is_canonical(
    left: Seq<(Seq<char>, Seq<char>)>,
    right: Seq<(Seq<char>, Seq<char>)>,
)
    requires
        ascending(left),
        ascending(right),
        map_of(left) == map_of(right),
    ensures
        left == right,
    decreases left.len(),
{
    lemma_size(left);
    lemma_size(right);
    if left.len() > 0 {
        let m = map_of(left);
        lemma_names(left);
        lemma_names(right);
        let a = left.last();
        let b = right.last();
        lemma_value(left, left.len() - 1);
        lemma_value(right, right.len() - 1);
        assert(m.contains_key(a.0) && m.contains_key(b.0));
        // Both last names are the greatest name of the map.
        let i = choose|i: int| 0 <= i < right.len() && #[trigger] right[i].0 == a.0;
        let j = choose|j: int| 0 <= j < left.len() && #[trigger] left[j].0 == b.0;
        if i < right.len() - 1 {
            assert(name_before(right[i].0, right[right.len() - 1].0));
            lemma_before_asymmetric(encode_utf8(a.0), encode_utf8(b.0));
            if j < left.len() - 1 {
                assert(name_before(left[j].0, left[left.len() - 1].0));
            }
        }
        assert(a.0 == b.0);
        let left_rest = left.drop_last();
        let right_rest = right.drop_last();
        assert(forall|k: int| 0 <= k < left_rest.len() ==> left_rest[k] == left[k]);
        assert(forall|k: int| 0 <= k < right_rest.len() ==> right_rest[k] == right[k]);
        assert forall|k: int| 0 <= k < left_rest.len() implies name_before(
            #[trigger] left_rest[k].0,
            a.0,
        ) by {
            assert(name_before(left[k].0, left[left.len() - 1].0));
        }
        assert forall|k: int| 0 <= k < right_rest.len() implies name_before(
            #[trigger] right_rest[k].0,
            b.0,
        ) by {
            assert(name_before(right[k].0, right[right.len() - 1].0));
        }
        lemma_absent(left_rest, a.0, left_rest.len() as int);
        lemma_absent(right_rest, b.0, right_rest.len() as int);
        assert(map_of(left_rest) =~= m.remove(a.0));
        assert(map_of(right_rest) =~= m.remove(b.0));
        order_is_canonical(left_rest, right_rest);
        assert(left =~= left_rest.push(a));
        assert(right =~= right_rest.push(b));
    }
}

/// Names are listed in the order of their bytes: the first byte in which two of
/// them differ decides, and a beginning comes before what it begins.
pub proof fn first_difference_decides(
    common: Seq<u8>,
    left: u8,
    right: u8,
    left_rest: Seq<u8>,
    right_rest: Seq<u8>,
)
    ensures
        bytes_before(common.push(left) + left_rest, common.push(right) + right_rest) <==> left
            < right || (left == right && bytes_before(left_rest, right_rest)),
        bytes_before(common, common.push(right) + right_rest),
        !bytes_before(common.push(left) + left_rest, common),
{
    let a = common.push(left) + left_rest;
    let b = common.push(right) + right_rest;
    let n = common.len() as int;
    assert(a.take(n) =~= common && b.take(n) =~= common && common.take(n) =~= common);
    assert(a[n] == left && b[n] == right);
    assert(parts_at(common, b, n));
    assert(parts_at(common, a, n));
    lemma_before_asymmetric(common, a);
    if left < right {
        assert(parts_at(a, b, n));
    } else if right < left {
        assert(parts_at(b, a, n));
        lemma_before_asymmetric(b, a);
    } else {
        if bytes_before(left_rest, right_rest) {
            let at = choose|at: int| #[trigger] parts_at(left_rest, right_rest, at);
            assert(a.take(n + 1 + at) =~= common.push(left) + left_rest.take(at));
            assert(b.take(n + 1 + at) =~= common.push(right) + right_rest.take(at));
            assert(parts_at(a, b, n + 1 + at));
        }
        if bytes_before(a, b) {
            let at = choose|at: int| #[trigger] parts_at(a, b, at);
            if at <= n {
                if at < n {
                    assert(common[at] == a[at] && common[at] == b[at]);
                }
                assert(false);
            }
            let place = at - n - 1;
            assert(left_rest.take(place) =~= a.take(at).skip(n + 1));
            assert(right_rest.take(place) =~= b.take(at).skip(n + 1));
            assert(parts_at(left_rest, right_rest, place));
        }
    }
}

/// Of two different byte strings exactly one comes before the other, and none
/// before itself.
pub proof fn byte_order_is_total(left: Seq<u8>, right: Seq<u8>)
    ensures
        !bytes_before(left, left),
        left != right ==> (bytes_before(left, right) <==> !bytes_before(right, left)),
    decreases left.len(),
{
    if left != right {
        if bytes_before(left, right) {
            lemma_before_asymmetric(left, right);
        } else if left.len() == 0 {
            assert(right.len() > 0) by {
                if right.len() == 0 {
                    assert(left =~= right);
                }
            }
            assert(left.take(0) =~= right.take(0));
            assert(parts_at(left, right, 0));
        } else if right.len() == 0 {
            assert(left.take(0) =~= right.take(0));
            assert(parts_at(right, left, 0));
        } else {
            let empty = Seq::<u8>::empty();
            let left_rest = left.drop_first();
            let right_rest = right.drop_first();
            assert(empty.push(left[0]) + left_rest =~= left);
            assert(empty.push(right[0]) + right_rest =~= right);
            first_difference_decides(empty, left[0], right[0], left_rest, right_rest);
            first_difference_decides(empty, right[0], left[0], right_rest, left_rest);
            if left[0] == right[0] {
                if left_rest == right_rest {
                    assert(left =~= right);
                }
                byte_order_is_total(left_rest, right_rest);
            }
        }
    }
}

/// Names compare by their UTF-8 bytes, and entries stand in that order.
pub proof fn entries_stand_in_byte_order(pairs: Seq<(Seq<char>, Seq<char>)>, i: int, j: int)
    requires
        ascending(pairs),
        0 <= i < j < pairs.len(),
    ensures
        bytes_before(encode_utf8(pairs[i].0), encode_utf8(pairs[j].0)),
        pairs[i].0 != pairs[j].0,
{
    assert(name_before(pairs[i].0, pairs[j].0));
    lemma_before_irreflexive(encode_utf8(pairs[i].0));
}

/// The entries list the map: every name once, with its value, and no other name.
pub proof fn entries_list_the_map(pairs: Seq<(Seq<char>, Seq<char>)>, name: Seq<char>)
    requires
        ascending(pairs),
    ensures
        map_of(pairs).contains_key(name) <==> exists|i: int|
            0 <= i < pairs.len() && #[trigger] pairs[i].0 == name,
        forall|i: int|
            0 <= i < pairs.len() && #[trigger] pairs[i].0 == name ==> map_of(pairs)[name]
                == pairs[i].1,
        map_of(pairs).dom().len() == pairs.len(),
{
    lemma_names(pairs);
    lemma_size(pairs);
    assert forall|i: int| 0 <= i < pairs.len() && #[trigger] pairs[i].0 == name implies map_of(
        pairs,
    )[name] == pairs[i].1 by {
        lemma_value(pairs, i);
    }
}

/// The last value given to a name stands, and other names keep theirs.
pub proof fn later_values_replace_earlier_ones(
    pairs: Seq<(Seq<char>, Seq<char>)>,
    name: Seq<char>,
    value: Seq<char>,
    other: Seq<char>,
)
    ensures
        map_of(pairs.push((name, value))).contains_key(name),
        map_of(pairs.push((name, value)))[name] == value,
        other != name ==> (map_of(pairs.push((name, value))).contains_key(other)
            <==> map_of(pairs).contains_key(other)),
        other != name && map_of(pairs).contains_key(other) ==> map_of(
            pairs.push((name, value)),
        )[other] == map_of(pairs)[other],
        map_of(Seq::<(Seq<char>, Seq<char>)>::empty()) == Map::<Seq<char>, Seq<char>>::empty(),
{
    assert(pairs.push((name, value)).drop_last() =~= pairs);
}

} // verus!
