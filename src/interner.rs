//! Dense integer identifiers for region identifier strings.
use vstd::prelude::*;

use string_interner::backend::StringBackend;
use string_interner::symbol::SymbolU32;
use string_interner::{StringInterner, Symbol};

use crate::id::GeoId;

verus! {

/// The string table of string-interner (string backend, 32-bit symbols),
/// held opaquely: its contents are known only through `table_strings`.
#[verifier::external_body]
pub struct SymbolTable {
    table: StringInterner<StringBackend<SymbolU32>>,
}

/// The strings that a table holds, in the order of their symbols.
pub uninterp spec fn table_strings(t: SymbolTable) -> Seq<Seq<char>>;

/// Relies on `StringInterner::new`: a new table holds no string.
#[verifier::external_body]
fn table_new() -> (t: SymbolTable)
    ensures
        table_strings(t) == Seq::<Seq<char>>::empty(),
{
    SymbolTable { table: StringInterner::new() }
}

/// Relies on `StringInterner::len`: the number of distinct strings interned.
#[verifier::external_body]
fn table_len(t: &SymbolTable) -> (r: usize)
    ensures
        r == table_strings(*t).len(),
{
    t.table.len()
}

/// Relies on `StringInterner::get_or_intern` with the string backend: a string
/// seen before gets its earlier symbol; a new one is appended and gets the
/// next index. It panics only when the symbol space is exhausted.
#[verifier::external_body]
fn table_get_or_intern(t: &mut SymbolTable, s: &str) -> (r: u32)
    requires
        table_strings(*old(t)).len() < u32::MAX,
    ensures
        table_strings(*old(t)).contains(s@) ==> table_strings(*final(t)) == table_strings(*old(t))
            && r < table_strings(*old(t)).len() && table_strings(*old(t))[r as int] == s@,
        !table_strings(*old(t)).contains(s@) ==> table_strings(*final(t)) == table_strings(
            *old(t),
        ).push(s@) && r == table_strings(*old(t)).len(),
{
    t.table.get_or_intern(s).to_usize() as u32
}

/// Relies on `StringInterner::resolve`: the string of a symbol that the
/// table issued, and nothing for any other.
#[verifier::external_body]
fn table_resolve(t: &SymbolTable, id: u32) -> (r: Option<String>)
    requires
        table_strings(*t).len() < u32::MAX,
    ensures
        (id < table_strings(*t).len()) == r.is_some(),
        r.is_some() ==> r.unwrap()@ == table_strings(*t)[id as int],
{
    match SymbolU32::try_from_usize(id as usize) {
        Some(symbol) => t.table.resolve(symbol).map(|s| s.to_string()),
        None => None,
    }
}

/// An interned region identifier: the index of its first occurrence.
#[derive(Clone, Copy, Debug, PartialEq, Eq, PartialOrd, Ord, Hash, Structural)]
pub struct InternedGeoId(pub u32);

/// Maps identifier strings to dense integers in first-seen order, and back.
pub struct GeoIdInterner {
    inner: SymbolTable,
}

pub open spec fn no_duplicates(s: Seq<Seq<char>>) -> bool {
    s.no_duplicates()
}

/// The strings held after interning `s`: unchanged where `s` is held, else
/// `s` appended.
pub open spec fn interned_after(strings: Seq<Seq<char>>, s: Seq<char>) -> Seq<Seq<char>> {
    if strings.contains(s) {
        strings
    } else {
        strings.push(s)
    }
}

/// The strings held after interning each of `xs` in turn.
pub open spec fn interned_all(strings: Seq<Seq<char>>, xs: Seq<Seq<char>>) -> Seq<Seq<char>>
    decreases xs.len(),
{
    if xs.len() == 0 {
        strings
    } else {
        interned_after(interned_all(strings, xs.drop_last()), xs.last())
    }
}

/// Interning is idempotent: interning a string that is already held changes
/// nothing, so it keeps its identifier; and interning any sequence of strings
/// into an empty interner holds each distinct string exactly once, so the
/// count of strings is the number of distinct strings interned.
pub proof fn lemma_interning_idempotent(strings: Seq<Seq<char>>, s: Seq<char>, xs: Seq<Seq<char>>)
    ensures
        interned_after(interned_after(strings, s), s) == interned_after(strings, s),
        interned_after(strings, s).contains(s),
        interned_all(Seq::empty(), xs).no_duplicates(),
        interned_all(Seq::empty(), xs).to_set() == xs.to_set(),
        interned_all(Seq::empty(), xs).len() == xs.to_set().len(),
{
    if !strings.contains(s) {
        assert(strings.push(s)[strings.len() as int] == s);
    }
    lemma_interned_all(xs);
    interned_all(Seq::empty(), xs).unique_seq_to_set();
}

/// Interning only appends: the strings held before stay first, in order.
pub proof fn lemma_interned_all_extends(strings: Seq<Seq<char>>, xs: Seq<Seq<char>>)
    ensures
        strings.len() <= interned_all(strings, xs).len(),
        interned_all(strings, xs).subrange(0, strings.len() as int) == strings,
    decreases xs.len(),
{
    if xs.len() > 0 {
        lemma_interned_all_extends(strings, xs.drop_last());
        let t = interned_all(strings, xs.drop_last());
        assert(interned_after(t, xs.last()).subrange(0, strings.len() as int) =~= t.subrange(
            0,
            strings.len() as int,
        ));
    } else {
        assert(strings.subrange(0, strings.len() as int) =~= strings);
    }
}

proof fn lemma_interned_all(xs: Seq<Seq<char>>)
    ensures
        interned_all(Seq::empty(), xs).no_duplicates(),
        interned_all(Seq::empty(), xs).to_set() == xs.to_set(),
    decreases xs.len(),
{
    if xs.len() == 0 {
        assert(xs.to_set() =~= Set::empty());
        assert(Seq::<Seq<char>>::empty().to_set() =~= Set::empty());
    } else {
        let pre = xs.drop_last();
        lemma_interned_all(pre);
        let t = interned_all(Seq::empty(), pre);
        let x = xs.last();
        assert(xs =~= pre.push(x));
        pre.lemma_push_to_set_commute(x);
        if t.contains(x) {
            assert(t.to_set().contains(x));
            assert(xs.to_set() =~= t.to_set());
        } else {
            t.lemma_push_to_set_commute(x);
            assert forall|i: int, j: int|
                0 <= i < t.push(x).len() && 0 <= j < t.push(x).len() && i != j implies t.push(x)[i]
                != t.push(x)[j] by {
                if i < t.len() && j < t.len() {
                } else if i < t.len() {
                    assert(t.contains(t[i]));
                } else {
                    assert(t.contains(t[j]));
                }
            }
        }
    }
}

impl GeoIdInterner {
    /// The interned strings; the string at index `i` has identifier `i`.
    pub closed spec fn strings(&self) -> Seq<Seq<char>> {
        table_strings(self.inner)
    }

    pub open spec fn wf(&self) -> bool {
        &&& self.strings().len() < u32::MAX
        &&& no_duplicates(self.strings())
    }

    /// An interner that holds no string.
    pub fn new() -> (r: GeoIdInterner)
        ensures
            r.wf(),
            r.strings() == Seq::<Seq<char>>::empty(),
    {
        GeoIdInterner { inner: table_new() }
    }

    /// The number of distinct strings interned.
    pub fn len(&self) -> (r: usize)
        ensures
            r == self.strings().len(),
    {
        table_len(&self.inner)
    }

    /// The identifier of `string`: its earlier one where it was interned
    /// before, else the next unused one.
    pub fn intern(&mut self, string: &str) -> (r: InternedGeoId)
        requires
            old(self).wf(),
            old(self).strings().len() + 1 < u32::MAX,
        ensures
            final(self).wf(),
            final(self).strings() == interned_after(old(self).strings(), string@),
            r.0 < final(self).strings().len(),
            final(self).strings()[r.0 as int] == string@,
            !old(self).strings().contains(string@) ==> r.0 == old(self).strings().len(),
    {
        let r = table_get_or_intern(&mut self.inner, string);
        proof {
            let old_s = old(self).strings();
            if !old_s.contains(string@) {
                assert forall|i: int, j: int|
                    0 <= i < self.strings().len() && 0 <= j < self.strings().len() && i != j
                        implies self.strings()[i] != self.strings()[j] by {
                    if i < old_s.len() && j < old_s.len() {
                    } else if i < old_s.len() {
                        assert(old_s.contains(old_s[i]));
                    } else {
                        assert(old_s.contains(old_s[j]));
                    }
                }
            }
        }
        InternedGeoId(r)
    }

    /// Whether this interner issued `interned`.
    pub fn contains(&self, interned: InternedGeoId) -> (r: bool)
        ensures
            r == (interned.0 < self.strings().len()),
    {
        (interned.0 as usize) < table_len(&self.inner)
    }

    /// Interns an identifier in either form: a raw one becomes interned; an
    /// interned one is returned as it is.
    pub fn intern_geoid(&mut self, geoid: GeoId) -> (r: GeoId)
        requires
            old(self).wf(),
            old(self).strings().len() + 1 < u32::MAX,
        ensures
            final(self).wf(),
            match geoid {
                GeoId::Raw(s) => final(self).strings() == interned_after(old(self).strings(), s@)
                    && r is Interned && r->Interned_0 < final(self).strings().len()
                    && final(self).strings()[r->Interned_0 as int] == s@,
                GeoId::Interned(n) => final(self).strings() == old(self).strings() && r == geoid,
            },
    {
        match geoid {
            GeoId::Raw(s) => GeoId::Interned(self.intern(s.as_str()).0),
            GeoId::Interned(n) => GeoId::Interned(n),
        }
    }

    /// The raw form of an identifier: a raw one as it is, an interned one
    /// resolved, or nothing where this interner did not issue it.
    pub fn get(&self, geoid: GeoId) -> (r: Option<GeoId>)
        requires
            self.wf(),
        ensures
            match geoid {
                GeoId::Raw(s) => r == Some(GeoId::Raw(s)),
                GeoId::Interned(n) => if n < self.strings().len() {
                    r is Some && r->Some_0 is Raw && r->Some_0->Raw_0@ == self.strings()[n as int]
                } else {
                    r is None
                },
            },
    {
        match geoid {
            GeoId::Raw(s) => Some(GeoId::Raw(s)),
            GeoId::Interned(n) => match self.resolve(InternedGeoId(n)) {
                Some(s) => Some(GeoId::Raw(s)),
                None => None,
            },
        }
    }

    /// The string of an identifier that this interner issued, or nothing.
    pub fn resolve(&self, interned: InternedGeoId) -> (r: Option<String>)
        requires
            self.wf(),
        ensures
            r.is_some() == (interned.0 < self.strings().len()),
            r.is_some() ==> r.unwrap()@ == self.strings()[interned.0 as int],
    {
        table_resolve(&self.inner, interned.0)
    }
}

} // verus!
