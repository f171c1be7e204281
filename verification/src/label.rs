//! Interned tensor-index labels.
//!
//! A [`LabelInterner`] maps label names to small integer ids and back; a
//! [`LabelId`] is such an id. Ids are handed out in increasing order starting
//! at 1, so every id the interner has issued is below its next id and a fresh
//! id differs from every earlier one.

use dashmap::DashMap;
use vstd::prelude::*;

use crate::text::{chars_of, decimal, push_char, push_decimal, push_str};

verus! {

#[verifier::external_type_specification]
#[verifier::external_body]
#[verifier::reject_recursive_types(K)]
#[verifier::reject_recursive_types(V)]
#[verifier::reject_recursive_types(S)]
pub struct ExDashMap<K, V, S>(DashMap<K, V, S>);

/// What a name-to-id `DashMap` holds: each name, by its characters, with its id.
pub uninterp spec fn name_table(m: DashMap<String, u64>) -> Map<Seq<char>, u64>;

/// What an id-to-name `DashMap` holds: each id with the characters of its name.
pub uninterp spec fn id_table(m: DashMap<u64, String>) -> Map<u64, Seq<char>>;

/// An empty name-to-id map.
///
/// Calls `DashMap::new`, which builds a map with no entries.
#[verifier::external_body]
fn new_name_map() -> (made: DashMap<String, u64>)
    ensures
        name_table(made).dom() == Set::<Seq<char>>::empty(),
{
    DashMap::new()
}

/// An empty id-to-name map.
///
/// Calls `DashMap::new`, which builds a map with no entries.
#[verifier::external_body]
fn new_id_map() -> (made: DashMap<u64, String>)
    ensures
        id_table(made).dom() == Set::<u64>::empty(),
{
    DashMap::new()
}

/// The id stored under `name`, if any.
///
/// Calls `DashMap::get`, which returns a reference to the value stored under
/// an equal key, or `None` when the key is absent; the value is copied out.
#[verifier::external_body]
fn lookup_name(m: &DashMap<String, u64>, name: &str) -> (r: Option<u64>)
    ensures
        r == (if name_table(*m).dom().contains(name@) {
            Some(name_table(*m)[name@])
        } else {
            None
        }),
{
    match m.get(name) {
        Some(entry) => Some(*entry.value()),
        None => None,
    }
}

/// The name stored under `id`, if any.
///
/// Calls `DashMap::get`, which returns a reference to the value stored under
/// the key, or `None` when the key is absent; the value is cloned out.
#[verifier::external_body]
fn lookup_id(m: &DashMap<u64, String>, id: u64) -> (r: Option<String>)
    ensures
        match r {
            Some(s) => id_table(*m).dom().contains(id) && s@ == id_table(*m)[id],
            None => !id_table(*m).dom().contains(id),
        },
{
    match m.get(&id) {
        Some(entry) => Some(entry.value().clone()),
        None => None,
    }
}

/// Stores `id` under `name`.
///
/// Calls `DashMap::insert`, which stores the value under the key, replacing
/// any value the key had; the other entries are untouched.
#[verifier::external_body]
fn store_name(m: &mut DashMap<String, u64>, name: String, id: u64)
    ensures
        name_table(*final(m)) == name_table(*old(m)).insert(name@, id),
{
    m.insert(name, id);
}

/// Stores `name` under `id`.
///
/// Calls `DashMap::insert`, which stores the value under the key, replacing
/// any value the key had; the other entries are untouched.
#[verifier::external_body]
fn store_id(m: &mut DashMap<u64, String>, id: u64, name: String)
    ensures
        id_table(*final(m)) == id_table(*old(m)).insert(id, name@),
{
    m.insert(id, name);
}

/// The table of label names and ids.
pub struct LabelInterner {
    name_to_id: DashMap<String, u64>,
    id_to_name: DashMap<u64, String>,
    next_id: u64,
}

impl LabelInterner {
    /// Names with their ids.
    pub closed spec fn names(&self) -> Map<Seq<char>, u64> {
        name_table(self.name_to_id)
    }

    /// Ids with their names.
    pub closed spec fn ids(&self) -> Map<u64, Seq<char>> {
        id_table(self.id_to_name)
    }

    /// The id the next new label will get.
    pub closed spec fn next(&self) -> u64 {
        self.next_id
    }

    /// Every id issued lies in `1..next`; every name's id is issued and
    /// carries that name.
    pub open spec fn wf(&self) -> bool {
        &&& 1 <= self.next()
        &&& forall|id: u64| #[trigger]
            self.ids().dom().contains(id) ==> 1 <= id < self.next()
        &&& forall|n: Seq<char>| #[trigger]
            self.names().dom().contains(n) ==> self.ids().dom().contains(self.names()[n])
                && self.ids()[self.names()[n]] == n
    }

    /// An interner with no labels; the first id it issues is 1.
    pub fn new() -> (r: Self)
        ensures
            r.wf(),
            r.names() == Map::<Seq<char>, u64>::empty(),
            r.ids() == Map::<u64, Seq<char>>::empty(),
            r.next() == 1,
    {
        LabelInterner { name_to_id: new_name_map(), id_to_name: new_id_map(), next_id: 1 }
    }

    /// The id the next new label will get.
    pub fn next_id(&self) -> (r: u64)
        ensures
            r == self.next(),
    {
        self.next_id
    }

    /// Records `name` under a newly issued id and returns that id.
    fn issue(&mut self, name: String) -> (id: u64)
        requires
            old(self).wf(),
            old(self).next() < u64::MAX,
        ensures
            final(self).wf(),
            id == old(self).next(),
            final(self).next() == old(self).next() + 1,
            final(self).names() == old(self).names().insert(name@, id),
            final(self).ids() == old(self).ids().insert(id, name@),
    {
        let id = self.next_id;
        self.next_id = id + 1;
        let copy = name.clone();
        store_name(&mut self.name_to_id, name, id);
        store_id(&mut self.id_to_name, id, copy);
        let ghost n0 = old(self).names();
        let ghost i0 = old(self).ids();
        assert forall|n: Seq<char>| #[trigger] self.names().dom().contains(n) implies self.ids().dom().contains(
            self.names()[n],
        ) && self.ids()[self.names()[n]] == n by {
            if n != copy@ {
                assert(n0.dom().contains(n));
                assert(i0.dom().contains(n0[n]));
                assert(n0[n] < id);
            }
        }
        id
    }
}

impl Default for LabelInterner {
    /// An interner with no labels; the first id it issues is 1.
    fn default() -> (r: Self)
        ensures
            r.wf(),
            r.names() == Map::<Seq<char>, u64>::empty(),
            r.ids() == Map::<u64, Seq<char>>::empty(),
            r.next() == 1,
    {
        LabelInterner::new()
    }
}

/// A label: the id of an interned name.
#[derive(Copy, Clone, PartialEq, Eq, Structural, Hash, Debug)]
pub struct LabelId(u64);

/// The name an interner gives `id`: its recorded name, or `<unknown:id>`.
pub open spec fn name_of(ids: Map<u64, Seq<char>>, id: u64) -> Seq<char> {
    if ids.dom().contains(id) {
        ids[id]
    } else {
        "<unknown:"@ + decimal(id as nat) + ">"@
    }
}

/// `n` prime marks.
pub open spec fn prime_marks(n: nat) -> Seq<char> {
    Seq::new(n, |i: int| '\'')
}

/// `s` without its trailing prime marks.
pub open spec fn strip_primes(s: Seq<char>) -> Seq<char>
    decreases s.len(),
{
    if s.len() > 0 && s.last() == '\'' {
        strip_primes(s.drop_last())
    } else {
        s
    }
}

/// The id `intern` gives `name`: the id already recorded for it, or else the
/// interner's next id.
pub open spec fn interned_id(it: LabelInterner, name: Seq<char>) -> u64 {
    if it.names().dom().contains(name) {
        it.names()[name]
    } else {
        it.next()
    }
}

/// The interner after interning `name` into `before`.
pub open spec fn interned_into(before: LabelInterner, after: LabelInterner, name: Seq<char>) -> bool {
    if before.names().dom().contains(name) {
        &&& after.names() == before.names()
        &&& after.ids() == before.ids()
        &&& after.next() == before.next()
    } else {
        &&& after.names() == before.names().insert(name, before.next())
        &&& after.ids() == before.ids().insert(before.next(), name)
        &&& after.next() == before.next() + 1
    }
}

impl View for LabelId {
    type V = u64;

    closed spec fn view(&self) -> u64 {
        self.0
    }
}

impl LabelId {
    /// The label named `name`: the id already recorded for it, or a newly
    /// issued one recorded under it.
    pub fn intern(interner: &mut LabelInterner, name: &str) -> (r: LabelId)
        requires
            old(interner).wf(),
            old(interner).next() < u64::MAX,
        ensures
            final(interner).wf(),
            r@ == interned_id(*old(interner), name@),
            interned_into(*old(interner), *final(interner), name@),
    {
        match lookup_name(&interner.name_to_id, name) {
            Some(id) => LabelId(id),
            None => {
                let id = interner.issue(name.to_owned());
                LabelId(id)
            },
        }
    }

    /// The name recorded for this label, or `<unknown:ID>` when the
    /// interner has none.
    pub fn name(&self, interner: &LabelInterner) -> (r: String)
        ensures
            r@ == name_of(interner.ids(), self@),
    {
        match lookup_id(&interner.id_to_name, self.0) {
            Some(s) => s,
            None => {
                let mut s = "<unknown:".to_owned();
                push_decimal(&mut s, self.0);
                push_str(&mut s, ">");
                s
            },
        }
    }

    /// A label that no earlier label equals, named `_tmp_ID` after its id.
    pub fn fresh(interner: &mut LabelInterner) -> (r: LabelId)
        requires
            old(interner).wf(),
            old(interner).next() < u64::MAX,
        ensures
            final(interner).wf(),
            r@ == old(interner).next(),
            !old(interner).ids().dom().contains(r@),
            final(interner).next() == old(interner).next() + 1,
            final(interner).names() == old(interner).names().insert("_tmp_"@ + decimal(r@ as nat), r@),
            final(interner).ids() == old(interner).ids().insert(r@, "_tmp_"@ + decimal(r@ as nat)),
    {
        let id = interner.next_id;
        let mut name = "_tmp_".to_owned();
        push_decimal(&mut name, id);
        let issued = interner.issue(name);
        LabelId(issued)
    }

    /// The label whose name is this one's followed by `'`.
    pub fn prime(&self, interner: &mut LabelInterner) -> (r: LabelId)
        requires
            old(interner).wf(),
            old(interner).next() < u64::MAX,
        ensures
            final(interner).wf(),
            r@ == interned_id(*old(interner), name_of(old(interner).ids(), self@).push('\'')),
            interned_into(
                *old(interner),
                *final(interner),
                name_of(old(interner).ids(), self@).push('\''),
            ),
    {
        let mut s = self.name(interner);
        push_char(&mut s, '\'');
        LabelId::intern(interner, s.as_str())
    }

    /// The label whose name is this one's followed by `n` marks `'`.
    pub fn primes(&self, interner: &mut LabelInterner, n: usize) -> (r: LabelId)
        requires
            old(interner).wf(),
            old(interner).next() < u64::MAX,
        ensures
            final(interner).wf(),
            r@ == interned_id(*old(interner), name_of(old(interner).ids(), self@) + prime_marks(n as nat)),
            interned_into(
                *old(interner),
                *final(interner),
                name_of(old(interner).ids(), self@) + prime_marks(n as nat),
            ),
    {
        let mut s = self.name(interner);
        let ghost start = s@;
        let mut i: usize = 0;
        while i < n
            invariant
                i <= n,
                s@ == start + prime_marks(i as nat),
            decreases n - i,
        {
            push_char(&mut s, '\'');
            assert(prime_marks((i + 1) as nat) =~= prime_marks(i as nat).push('\''));
            assert(s@ =~= start + prime_marks((i + 1) as nat));
            i = i + 1;
        }
        LabelId::intern(interner, s.as_str())
    }

    /// Without a trailing `'`, the same label; with one, the label whose
    /// name drops that last mark.
    pub fn unprime(&self, interner: &mut LabelInterner) -> (r: LabelId)
        requires
            old(interner).wf(),
            old(interner).next() < u64::MAX,
        ensures
            final(interner).wf(),
            ({
                let nm = name_of(old(interner).ids(), self@);
                if nm.len() > 0 && nm.last() == '\'' {
                    &&& r@ == interned_id(*old(interner), nm.drop_last())
                    &&& interned_into(*old(interner), *final(interner), nm.drop_last())
                } else {
                    &&& r == *self
                    &&& *final(interner) == *old(interner)
                }
            }),
    {
        let s = self.name(interner);
        let cs = chars_of(s.as_str());
        let len = cs.len();
        if len > 0 && cs[len - 1] == '\'' {
            let mut t = String::new();
            let mut i: usize = 0;
            while i < len - 1
                invariant
                    i <= len - 1,
                    len == cs@.len(),
                    len > 0,
                    t@ == cs@.take(i as int),
                decreases len - 1 - i,
            {
                push_char(&mut t, cs[i]);
                assert(cs@.take(i + 1) =~= cs@.take(i as int).push(cs@[i as int]));
                i = i + 1;
            }
            assert(t@ =~= cs@.drop_last());
            LabelId::intern(interner, t.as_str())
        } else {
            *self
        }
    }

    /// The label whose name is this one's without any trailing `'`.
    pub fn base(&self, interner: &mut LabelInterner) -> (r: LabelId)
        requires
            old(interner).wf(),
            old(interner).next() < u64::MAX,
        ensures
            final(interner).wf(),
            r@ == interned_id(*old(interner), strip_primes(name_of(old(interner).ids(), self@))),
            interned_into(
                *old(interner),
                *final(interner),
                strip_primes(name_of(old(interner).ids(), self@)),
            ),
    {
        let s = self.name(interner);
        let cs = chars_of(s.as_str());
        let ghost whole = cs@;
        let mut end: usize = cs.len();
        assert(whole.take(end as int) =~= whole);
        while end > 0 && cs[end - 1] == '\''
            invariant
                end <= cs@.len(),
                whole == cs@,
                strip_primes(whole.take(end as int)) == strip_primes(whole),
            decreases end,
        {
            assert(whole.take(end as int).drop_last() =~= whole.take(end - 1));
            end = end - 1;
        }
        let ghost kept = whole.take(end as int);
        assert(strip_primes(kept) == kept);
        let mut t = String::new();
        let mut i: usize = 0;
        while i < end
            invariant
                i <= end <= cs@.len(),
                t@ == cs@.take(i as int),
            decreases end - i,
        {
            push_char(&mut t, cs[i]);
            assert(cs@.take(i + 1) =~= cs@.take(i as int).push(cs@[i as int]));
            i = i + 1;
        }
        assert(whole.take(end as int) =~= cs@.take(end as int));
        LabelId::intern(interner, t.as_str())
    }
}

/// Interning a name records it: the id returned carries that name.
pub proof fn law_interned_name(before: LabelInterner, after: LabelInterner, name: Seq<char>)
    requires
        before.wf(),
        interned_into(before, after, name),
    ensures
        after.ids().dom().contains(interned_id(before, name)),
        name_of(after.ids(), interned_id(before, name)) == name,
{
}

/// Interning is idempotent: interning a name a second time returns the same
/// label and leaves the interner as it was.
pub proof fn law_intern_idempotent(
    first: LabelInterner,
    second: LabelInterner,
    third: LabelInterner,
    name: Seq<char>,
)
    requires
        first.wf(),
        interned_into(first, second, name),
        interned_into(second, third, name),
    ensures
        interned_id(second, name) == interned_id(first, name),
        third.names() == second.names(),
        third.ids() == second.ids(),
        third.next() == second.next(),
{
}

/// Interning keeps the interner well formed.
proof fn lemma_interned_wf(before: LabelInterner, after: LabelInterner, name: Seq<char>)
    requires
        before.wf(),
        interned_into(before, after, name),
    ensures
        after.wf(),
{
    assert forall|id: u64| #[trigger] after.ids().dom().contains(id) implies 1 <= id < after.next() by {}
    assert forall|n: Seq<char>| #[trigger] after.names().dom().contains(n) implies after.ids().dom().contains(
        after.names()[n],
    ) && after.ids()[after.names()[n]] == n by {}
}

/// Two names interned one after the other get the same label exactly when
/// they are the same name.
pub proof fn law_intern_distinct(
    first: LabelInterner,
    second: LabelInterner,
    third: LabelInterner,
    a: Seq<char>,
    b: Seq<char>,
)
    requires
        first.wf(),
        interned_into(first, second, a),
        interned_into(second, third, b),
    ensures
        interned_id(second, b) == interned_id(first, a) <==> a == b,
{
    law_interned_name(first, second, a);
    lemma_interned_wf(first, second, a);
    let ia = interned_id(first, a);
    if interned_id(second, b) == ia {
        if second.names().dom().contains(b) {
            assert(second.ids()[second.names()[b]] == b);
        } else {
            assert(second.ids().dom().contains(ia));
        }
    }
}

/// Interning never forgets: every label named before keeps its name.
pub proof fn law_intern_keeps_names(before: LabelInterner, after: LabelInterner, name: Seq<char>, id: u64)
    requires
        before.wf(),
        interned_into(before, after, name),
        before.ids().dom().contains(id),
    ensures
        after.ids().dom().contains(id),
        name_of(after.ids(), id) == name_of(before.ids(), id),
{
}

/// Trailing prime marks are what `strip_primes` removes.
pub proof fn lemma_strip_primes_marks(s: Seq<char>, n: nat)
    ensures
        strip_primes(s + prime_marks(n)) == strip_primes(s),
    decreases n,
{
    if n > 0 {
        assert((s + prime_marks(n)).drop_last() =~= s + prime_marks((n - 1) as nat));
        lemma_strip_primes_marks(s, (n - 1) as nat);
    } else {
        assert(s + prime_marks(0) =~= s);
    }
}

/// Priming then unpriming a label gives a label with the original name.
pub proof fn law_unprime_undoes_prime(
    i0: LabelInterner,
    i1: LabelInterner,
    i2: LabelInterner,
    x: LabelId,
)
    requires
        i0.wf(),
        interned_into(i0, i1, name_of(i0.ids(), x@).push('\'')),
        interned_into(
            i1,
            i2,
            name_of(i1.ids(), interned_id(i0, name_of(i0.ids(), x@).push('\''))).drop_last(),
        ),
    ensures
        ({
            let primed = interned_id(i0, name_of(i0.ids(), x@).push('\''));
            let nm = name_of(i1.ids(), primed);
            &&& nm == name_of(i0.ids(), x@).push('\'')
            &&& nm.len() > 0 && nm.last() == '\''
            &&& name_of(i2.ids(), interned_id(i1, nm.drop_last())) == name_of(i0.ids(), x@)
        }),
{
    let base = name_of(i0.ids(), x@);
    law_interned_name(i0, i1, base.push('\''));
    assert(base.push('\'').drop_last() =~= base);
    lemma_interned_wf(i0, i1, base.push('\''));
    law_interned_name(i1, i2, base);
}

/// The base of a label primed `n` times carries the original name without
/// its trailing prime marks.
pub proof fn law_base_of_primes(
    i0: LabelInterner,
    i1: LabelInterner,
    i2: LabelInterner,
    x: LabelId,
    n: nat,
)
    requires
        i0.wf(),
        interned_into(i0, i1, name_of(i0.ids(), x@) + prime_marks(n)),
        interned_into(
            i1,
            i2,
            strip_primes(name_of(i1.ids(), interned_id(i0, name_of(i0.ids(), x@) + prime_marks(n)))),
        ),
    ensures
        ({
            let primed = interned_id(i0, name_of(i0.ids(), x@) + prime_marks(n));
            let nm = strip_primes(name_of(i1.ids(), primed));
            name_of(i2.ids(), interned_id(i1, nm)) == strip_primes(name_of(i0.ids(), x@))
        }),
{
    let base = name_of(i0.ids(), x@);
    law_interned_name(i0, i1, base + prime_marks(n));
    lemma_strip_primes_marks(base, n);
    lemma_interned_wf(i0, i1, base + prime_marks(n));
    law_interned_name(i1, i2, strip_primes(base));
}

/// Stripping the trailing prime marks twice strips nothing more.
proof fn lemma_strip_primes_idempotent(s: Seq<char>)
    ensures
        strip_primes(strip_primes(s)) == strip_primes(s),
    decreases s.len(),
{
    if s.len() > 0 && s.last() == '\'' {
        lemma_strip_primes_idempotent(s.drop_last());
    }
}

/// Priming `n` times is interning the name with `n` marks added: the label
/// `primes(n)` gives is the one that interning that name afterwards gives
/// again, it carries that name, and one mark is what `prime` adds, none is
/// the name itself.
pub proof fn law_primes_is_intern(
    i0: LabelInterner,
    i1: LabelInterner,
    i2: LabelInterner,
    x: LabelId,
    n: nat,
)
    requires
        i0.wf(),
        interned_into(i0, i1, name_of(i0.ids(), x@) + prime_marks(n)),
        interned_into(i1, i2, name_of(i0.ids(), x@) + prime_marks(n)),
    ensures
        ({
            let nm = name_of(i0.ids(), x@) + prime_marks(n);
            let r = interned_id(i0, nm);
            &&& interned_id(i1, nm) == r
            &&& name_of(i1.ids(), r) == nm
            &&& i2.names() == i1.names() && i2.ids() == i1.ids() && i2.next() == i1.next()
        }),
        name_of(i0.ids(), x@) + prime_marks(1) == name_of(i0.ids(), x@).push('\''),
        name_of(i0.ids(), x@) + prime_marks(0) == name_of(i0.ids(), x@),
        n == 0 && i0.names().dom().contains(name_of(i0.ids(), x@)) && i0.names()[name_of(i0.ids(), x@)] == x@
            ==> interned_id(i0, name_of(i0.ids(), x@) + prime_marks(n)) == x@,
{
    let nm = name_of(i0.ids(), x@) + prime_marks(n);
    law_interned_name(i0, i1, nm);
    law_intern_idempotent(i0, i1, i2, nm);
    assert(name_of(i0.ids(), x@) + prime_marks(1) =~= name_of(i0.ids(), x@).push('\''));
    assert(name_of(i0.ids(), x@) + prime_marks(0) =~= name_of(i0.ids(), x@));
}

/// Taking the base twice is taking it once: the base of a base label is
/// that same label, and interning it again changes nothing.
pub proof fn law_base_idempotent(i0: LabelInterner, i1: LabelInterner, i2: LabelInterner, x: LabelId)
    requires
        i0.wf(),
        interned_into(i0, i1, strip_primes(name_of(i0.ids(), x@))),
        interned_into(
            i1,
            i2,
            strip_primes(name_of(i1.ids(), interned_id(i0, strip_primes(name_of(i0.ids(), x@))))),
        ),
    ensures
        ({
            let b1 = interned_id(i0, strip_primes(name_of(i0.ids(), x@)));
            let b2 = interned_id(i1, strip_primes(name_of(i1.ids(), b1)));
            &&& b2 == b1
            &&& name_of(i1.ids(), b1) == strip_primes(name_of(i0.ids(), x@))
            &&& i2.names() == i1.names() && i2.ids() == i1.ids() && i2.next() == i1.next()
        }),
{
    let st = strip_primes(name_of(i0.ids(), x@));
    law_interned_name(i0, i1, st);
    lemma_strip_primes_idempotent(name_of(i0.ids(), x@));
    law_intern_idempotent(i0, i1, i2, st);
}

} // verus!
