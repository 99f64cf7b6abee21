use vstd::prelude::*;

use crate::key_index::KeyIndex;

verus! {

/// The strings of a `Vec<String>`, as character sequences.
pub open spec fn strings_view(v: Seq<String>) -> Seq<Seq<char>> {
    v.map_values(|s: String| s@)
}

/// Codes read back through a dictionary: code `c` stands for `cats[c]`.
pub open spec fn decode(values: Seq<u32>, cats: Seq<Seq<char>>) -> Seq<Seq<char>> {
    values.map_values(|c: u32| cats[c as int])
}

/// One string appended to an encoding: a string already in the dictionary
/// gets its code again, a new one gets the next unused code.
pub open spec fn encode_push(e: (Seq<u32>, Seq<Seq<char>>), v: Seq<char>) -> (
    Seq<u32>,
    Seq<Seq<char>>,
) {
    if e.1.contains(v) {
        (e.0.push(e.1.index_of(v) as u32), e.1)
    } else {
        (e.0.push(e.1.len() as u32), e.1.push(v))
    }
}

/// The dictionary encoding of a sequence of strings: codes are handed out
/// densely from 0, in order of first appearance.
pub open spec fn encode(s: Seq<Seq<char>>) -> (Seq<u32>, Seq<Seq<char>>)
    decreases s.len(),
{
    if s.len() == 0 {
        (Seq::empty(), Seq::empty())
    } else {
        encode_push(encode(s.drop_last()), s.last())
    }
}

/// `n` copies of the empty string.
pub open spec fn blanks(n: nat) -> Seq<Seq<char>> {
    Seq::new(n, |i: int| Seq::<char>::empty())
}

/// A dictionary-encoded column of strings.
///
/// `values` holds one code per pushed string; `cats` is the dictionary in
/// code order, so that code `c` stands for `cats[c]`; `index` finds the code
/// of a string. Codes are `u32`, so a column holds fewer than `u32::MAX`
/// entries.
pub struct Categorical {
    pub values: Vec<u32>,
    pub cats: Vec<String>,
    pub index: KeyIndex,
}

impl View for Categorical {
    type V = Seq<Seq<char>>;

    /// The column as the strings it stands for.
    open spec fn view(&self) -> Seq<Seq<char>> {
        decode(self.values@, strings_view(self.cats@))
    }
}

/// Facts about every encoding: one code per string, a dictionary without
/// repeats that is no longer than the column, and codes within it.
proof fn lemma_encode_shape(s: Seq<Seq<char>>)
    requires
        s.len() <= u32::MAX,
    ensures
        encode(s).0.len() == s.len(),
        encode(s).1.no_duplicates(),
        encode(s).1.len() <= s.len(),
        forall|i: int| 0 <= i < s.len() ==> (#[trigger] encode(s).0[i]) < encode(s).1.len(),
        forall|i: int| 0 <= i < s.len() ==> encode(s).1[#[trigger] encode(s).0[i] as int] == s[i],
    decreases s.len(),
{
    if s.len() > 0 {
        let p = s.drop_last();
        lemma_encode_shape(p);
        let e = encode(p);
        let v = s.last();
        if e.1.contains(v) {
            let k = e.1.index_of(v);
            assert(0 <= k < e.1.len() && e.1[k] == v);
        } else {
            assert forall|i: int, j: int|
                0 <= i < e.1.push(v).len() && 0 <= j < e.1.push(v).len() && i != j implies e.1.push(
                v,
            )[i] != e.1.push(v)[j] by {
                if i < e.1.len() && j < e.1.len() {
                } else if i < e.1.len() {
                    assert(e.1[i] == e.1.push(v)[i]);
                } else {
                    assert(e.1[j] == e.1.push(v)[j]);
                }
            }
        }
        assert forall|i: int| 0 <= i < s.len() implies encode(s).1[#[trigger] encode(
            s,
        ).0[i] as int] == s[i] by {
            if i < p.len() {
                assert(encode(s).0[i] == e.0[i]);
                assert(p[i] == s[i]);
                if !e.1.contains(v) {
                    assert(encode(s).1[e.0[i] as int] == e.1[e.0[i] as int]);
                }
            }
        }
        assert forall|i: int| 0 <= i < s.len() implies (#[trigger] encode(s).0[i]) < encode(
            s,
        ).1.len() by {
            if i < p.len() {
                assert(encode(s).0[i] == e.0[i]);
            }
        }
    }
}

/// Decoding an encoding gives back exactly the strings that were encoded,
/// in order.
pub proof fn lemma_round_trip(s: Seq<Seq<char>>)
    requires
        s.len() <= u32::MAX,
    ensures
        decode(encode(s).0, encode(s).1) == s,
{
    lemma_encode_shape(s);
    assert(decode(encode(s).0, encode(s).1) =~= s);
}

/// Appending a string that is already in the dictionary leaves the
/// dictionary as it is; appending the same string twice in a row yields the
/// same code twice.
pub proof fn lemma_push_twice(s: Seq<Seq<char>>, v: Seq<char>)
    requires
        s.len() + 2 <= u32::MAX,
    ensures
        encode(s.push(v).push(v)).1 == encode(s.push(v)).1,
        encode(s.push(v)).1.len() <= encode(s).1.len() + 1,
        encode(s.push(v).push(v)).0.last() == encode(s.push(v)).0.last(),
        encode(s).1.contains(v) ==> encode(s.push(v)).1 == encode(s).1,
{
    let s1 = s.push(v);
    let s2 = s1.push(v);
    assert(s1.drop_last() =~= s);
    assert(s2.drop_last() =~= s1);
    lemma_encode_shape(s);
    lemma_encode_shape(s1);
    let e1 = encode(s1);
    let n = s1.len() - 1;
    assert(e1.1[e1.0[n] as int] == s1[n]);
    assert(e1.1.contains(v));
    let k = e1.1.index_of(v);
    assert(e1.1[k] == v);
    assert(k == e1.0[n] as int);
}

/// Every code of a well-formed column is a position of its dictionary, and
/// the string there is the one that was pushed.
pub proof fn lemma_codes_in_dictionary(c: Categorical)
    requires
        c.wf(),
    ensures
        forall|i: int|
            0 <= i < c.values@.len() ==> (#[trigger] c.values@[i]) < c.cats@.len() && c.cats_view()[c.values@[i] as int] == c@[i],
        c.cats@.len() <= c.values@.len(),
{
    lemma_encode_shape(c@);
}

impl Categorical {
    /// The dictionary as character sequences, in code order.
    pub open spec fn cats_view(&self) -> Seq<Seq<char>> {
        strings_view(self.cats@)
    }

    /// The codes are the canonical encoding of the column, and the index
    /// finds each dictionary entry at its code.
    pub open spec fn wf(&self) -> bool {
        &&& self.values@.len() <= u32::MAX
        &&& encode(self@) == (self.values@, self.cats_view())
        &&& forall|k: Seq<char>| #[trigger]
            self.index@.contains_key(k) <==> self.cats_view().contains(k)
        &&& forall|i: int|
            0 <= i < self.cats@.len() ==> self.index@[#[trigger] self.cats_view()[i]] == i as u32
    }

    /// An empty column with an empty dictionary.
    pub fn new() -> (r: Categorical)
        ensures
            r.wf(),
            r@ == Seq::<Seq<char>>::empty(),
            r.values@.len() == 0,
            r.cats@.len() == 0,
            r.index@.dom() == Set::<Seq<char>>::empty(),
    {
        let r = Categorical { values: Vec::new(), cats: Vec::new(), index: KeyIndex::new() };
        assert(r@ =~= Seq::<Seq<char>>::empty());
        assert(r.cats_view() =~= Seq::<Seq<char>>::empty());
        assert(r.index@.dom() =~= Set::<Seq<char>>::empty());
        r
    }

    /// A column of `count` empty strings. Where `count > 0`, the empty string
    /// is code 0 and every position holds it; otherwise the column is empty.
    pub fn new_empty(count: u32) -> (r: Categorical)
        ensures
            r.wf(),
            r@ == blanks(count as nat),
            r.values@ == Seq::new(count as nat, |i: int| 0u32),
            count > 0 ==> r.cats_view() == seq![Seq::<char>::empty()],
            count == 0 ==> r.cats@.len() == 0,
    {
        let mut r = Categorical::new();
        if count > 0 {
            let e = String::new();
            r.index.insert(String::new(), 0);
            r.cats.push(e);
            r.values.push(0);
            let mut i: u32 = 1;
            proof {
                assert(r.cats_view() =~= seq![Seq::<char>::empty()]);
                assert(r.index@ =~= Map::<Seq<char>, u32>::empty().insert(Seq::<char>::empty(), 0u32));
                assert(r.values@ =~= Seq::new(1, |j: int| 0u32));
                assert(blanks(1).drop_last() =~= blanks(0));
                assert(encode(blanks(0)).1 =~= Seq::<Seq<char>>::empty());
                assert(encode(blanks(1)) == (r.values@, r.cats_view()));
            }
            while i < count
                invariant
                    1 <= i <= count,
                    r.cats_view() == seq![Seq::<char>::empty()],
                    r.values@ == Seq::new(i as nat, |j: int| 0u32),
                    r.index@ == Map::<Seq<char>, u32>::empty().insert(Seq::<char>::empty(), 0u32),
                    encode(blanks(i as nat)) == (r.values@, r.cats_view()),
                decreases count - i,
            {
                proof {
                    let b = blanks(i as nat + 1);
                    assert(b.drop_last() =~= blanks(i as nat));
                    let c = r.cats_view();
                    assert(c[0] == Seq::<char>::empty());
                    assert(c.contains(Seq::<char>::empty()));
                    assert(c.index_of(Seq::<char>::empty()) == 0);
                }
                r.values.push(0);
                i = i + 1;
                assert(r.values@ =~= Seq::new(i as nat, |j: int| 0u32));
            }
            assert(r@ =~= blanks(count as nat));
            assert forall|k: Seq<char>| #[trigger]
                r.index@.contains_key(k) <==> r.cats_view().contains(k) by {
                if r.cats_view().contains(k) {
                    let j = choose|j: int| 0 <= j < 1 && r.cats_view()[j] == k;
                    assert(j == 0);
                }
            }
        } else {
            assert(r.values@ =~= Seq::new(count as nat, |i: int| 0u32));
            assert(r@ =~= blanks(count as nat));
        }
        r
    }

    /// `new_empty(count)` followed by `push(value)`.
    pub fn new_empty_push(count: u32, value: &str) -> (r: Categorical)
        requires
            count < u32::MAX,
        ensures
            r.wf(),
            r@ == blanks(count as nat).push(value@),
    {
        let mut r = Categorical::new_empty(count);
        r.push(value);
        r
    }

    /// Appends `value`: its code where the dictionary has it, else the next
    /// unused code, which enters the dictionary with it.
    pub fn push(&mut self, value: &str)
        requires
            old(self).wf(),
            old(self).values@.len() < u32::MAX,
        ensures
            final(self).wf(),
            final(self)@ == old(self)@.push(value@),
            (final(self).values@, final(self).cats_view()) == encode_push(
                (old(self).values@, old(self).cats_view()),
                value@,
            ),
    {
        let ghost d = self@;
        proof {
            lemma_encode_shape(d);
            assert(d.push(value@).drop_last() =~= d);
        }
        match self.index.get(value) {
            Some(code) => {
                let ghost c = self.cats_view();
                proof {
                    let j = choose|j: int| 0 <= j < c.len() && c[j] == value@;
                    assert(self.index@[c[j]] == j as u32);
                    assert(c.index_of(value@) == j);
                }
                self.values.push(code);
                assert(self@ =~= d.push(value@));
            },
            None => {
                let ghost c = self.cats_view();
                let ghost oi = self.index@;
                let next = self.cats.len() as u32;
                self.index.insert(value.to_string(), next);
                self.cats.push(value.to_string());
                self.values.push(next);
                assert(self.cats_view() =~= c.push(value@));
                assert(self@ =~= d.push(value@));
                assert forall|k: Seq<char>| #[trigger]
                    self.index@.contains_key(k) <==> self.cats_view().contains(k) by {
                    if self.index@.contains_key(k) && k != value@ {
                        assert(oi.contains_key(k));
                        assert(c.contains(k));
                        let j = choose|j: int| 0 <= j < c.len() && c[j] == k;
                        assert(self.cats_view()[j] == c[j]);
                    }
                    if self.cats_view().contains(k) && k != value@ {
                        let j = choose|j: int|
                            0 <= j < self.cats_view().len() && self.cats_view()[j] == k;
                        assert(c[j] == k);
                    }
                    if k == value@ {
                        assert(self.cats_view()[c.len() as int] == k);
                    }
                }
                assert forall|i: int| 0 <= i < self.cats@.len() implies self.index@[
                    #[trigger] self.cats_view()[i]] == i as u32 by {
                    if i < c.len() {
                        assert(self.cats_view()[i] == c[i]);
                        assert(c.contains(c[i]));
                    }
                }
            },
        }
    }

    /// The number of codes recorded (not the number of distinct strings).
    pub fn len(&self) -> (r: usize)
        ensures
            r == self.values@.len(),
    {
        self.values.len()
    }

    /// The dictionary as a lookup table from code to string, in code order.
    pub fn dictionary(&self) -> (r: Vec<String>)
        ensures
            strings_view(r@) == self.cats_view(),
    {
        let mut r: Vec<String> = Vec::new();
        let mut i: usize = 0;
        while i < self.cats.len()
            invariant
                0 <= i <= self.cats@.len(),
                r@.len() == i,
                forall|j: int| 0 <= j < i ==> r@[j]@ == self.cats@[j]@,
            decreases self.cats@.len() - i,
        {
            r.push(self.cats[i].clone());
            i = i + 1;
        }
        assert(strings_view(r@) =~= self.cats_view());
        r
    }
}

} // verus!
