//! The symbol tables that a process handle carries, and symbol lookup.
use vstd::prelude::*;

verus! {

/// One symbol of a loaded object: its name and its address in the inferior.
pub struct SymbolEntry {
    pub name: String,
    pub addr: usize,
}

/// The symbols of one loaded object (the executable or a shared library).
pub struct ObjectSymbols {
    pub object: String,
    pub symbols: Vec<SymbolEntry>,
}

/// The address of the first entry of `entries` named `name`, if any.
pub open spec fn find_in_object(entries: Seq<SymbolEntry>, name: Seq<char>) -> Option<usize>
    decreases entries.len(),
{
    if entries.len() == 0 {
        None
    } else if entries[0].name@ == name {
        Some(entries[0].addr)
    } else {
        find_in_object(entries.drop_first(), name)
    }
}

/// The address of `name` in the first object, in table order, that defines it.
pub open spec fn find_symbol(objects: Seq<ObjectSymbols>, name: Seq<char>) -> Option<usize>
    decreases objects.len(),
{
    if objects.len() == 0 {
        None
    } else {
        match find_in_object(objects[0].symbols@, name) {
            Some(a) => Some(a),
            None => find_symbol(objects.drop_first(), name),
        }
    }
}

/// Looks `name` up in the symbols of one object.
pub fn lookup_in_object(entries: &Vec<SymbolEntry>, name: &String) -> (r: Option<usize>)
    ensures
        r == find_in_object(entries@, name@),
{
    let mut i: usize = 0;
    assert(entries@.skip(0) =~= entries@);
    while i < entries.len()
        invariant
            i <= entries@.len(),
            find_in_object(entries@, name@) == find_in_object(entries@.skip(i as int), name@),
        decreases entries@.len() - i,
    {
        assert(entries@.skip(i as int).drop_first() =~= entries@.skip(i + 1));
        if entries[i].name == *name {
            return Some(entries[i].addr);
        }
        i = i + 1;
    }
    assert(entries@.skip(i as int).len() == 0);
    None
}

/// Looks `name` up across objects, returning the address from the first
/// object that defines it.
pub fn lookup_symbol(objects: &Vec<ObjectSymbols>, name: &String) -> (r: Option<usize>)
    ensures
        r == find_symbol(objects@, name@),
{
    let mut i: usize = 0;
    assert(objects@.skip(0) =~= objects@);
    while i < objects.len()
        invariant
            i <= objects@.len(),
            find_symbol(objects@, name@) == find_symbol(objects@.skip(i as int), name@),
        decreases objects@.len() - i,
    {
        assert(objects@.skip(i as int).drop_first() =~= objects@.skip(i + 1));
        let found = lookup_in_object(&objects[i].symbols, name);
        if found.is_some() {
            return found;
        }
        i = i + 1;
    }
    assert(objects@.skip(i as int).len() == 0);
    None
}

/// Some entry of `entries` is named `name`.
pub open spec fn defines(entries: Seq<SymbolEntry>, name: Seq<char>) -> bool {
    exists|e: int| 0 <= e < entries.len() && #[trigger] entries[e].name@ == name
}

/// Looking a name up in one object finds it exactly when the object defines
/// it, and then gives the address of its first entry of that name.
pub proof fn lemma_find_in_object(entries: Seq<SymbolEntry>, name: Seq<char>)
    ensures
        find_in_object(entries, name) is Some <==> defines(entries, name),
        find_in_object(entries, name) matches Some(a) ==> exists|e: int|
            0 <= e < entries.len() && #[trigger] entries[e].name@ == name && entries[e].addr == a
                && forall|f: int| 0 <= f < e ==> #[trigger] entries[f].name@ != name,
    decreases entries.len(),
{
    if entries.len() > 0 {
        let rest = entries.drop_first();
        lemma_find_in_object(rest, name);
        if entries[0].name@ == name {
            assert(entries[0].name@ == name);
        } else {
            if defines(entries, name) {
                let e = choose|e: int| 0 <= e < entries.len() && #[trigger] entries[e].name@ == name;
                assert(rest[e - 1].name@ == name);
            }
            if defines(rest, name) {
                let e = choose|e: int| 0 <= e < rest.len() && #[trigger] rest[e].name@ == name;
                assert(entries[e + 1].name@ == name);
            }
            if let Some(a) = find_in_object(entries, name) {
                let e = choose|e: int|
                    0 <= e < rest.len() && #[trigger] rest[e].name@ == name && rest[e].addr == a
                        && forall|f: int| 0 <= f < e ==> #[trigger] rest[f].name@ != name;
                assert(entries[e + 1].name@ == name);
                assert forall|f: int| 0 <= f < e + 1 implies #[trigger] entries[f].name@ != name by {
                    if f > 0 {
                        assert(rest[f - 1].name@ != name);
                    }
                }
            }
        }
    }
}

/// A global lookup finds a symbol exactly when some object defines it; the
/// address it gives is that of the symbol in the first object that defines
/// it, no earlier object defining it.
pub proof fn lemma_find_symbol(objects: Seq<ObjectSymbols>, name: Seq<char>)
    ensures
        find_symbol(objects, name) is Some <==> exists|o: int|
            0 <= o < objects.len() && defines(#[trigger] objects[o].symbols@, name),
        find_symbol(objects, name) matches Some(a) ==> exists|o: int|
            0 <= o < objects.len() && find_in_object(#[trigger] objects[o].symbols@, name) == Some(a)
                && forall|p: int| 0 <= p < o ==> !defines(#[trigger] objects[p].symbols@, name),
    decreases objects.len(),
{
    if objects.len() > 0 {
        let rest = objects.drop_first();
        lemma_find_symbol(rest, name);
        lemma_find_in_object(objects[0].symbols@, name);
        if find_in_object(objects[0].symbols@, name) is Some {
            assert(defines(objects[0].symbols@, name));
        } else {
            if exists|o: int| 0 <= o < objects.len() && defines(#[trigger] objects[o].symbols@, name) {
                let o = choose|o: int| 0 <= o < objects.len() && defines(#[trigger] objects[o].symbols@, name);
                assert(defines(rest[o - 1].symbols@, name));
            }
            if exists|o: int| 0 <= o < rest.len() && defines(#[trigger] rest[o].symbols@, name) {
                let o = choose|o: int| 0 <= o < rest.len() && defines(#[trigger] rest[o].symbols@, name);
                assert(defines(objects[o + 1].symbols@, name));
            }
            if let Some(a) = find_symbol(objects, name) {
                let o = choose|o: int|
                    0 <= o < rest.len() && find_in_object(#[trigger] rest[o].symbols@, name) == Some(a)
                        && forall|p: int| 0 <= p < o ==> !defines(#[trigger] rest[p].symbols@, name);
                assert(find_in_object(objects[o + 1].symbols@, name) == Some(a));
                assert forall|p: int| 0 <= p < o + 1 implies !defines(#[trigger] objects[p].symbols@, name) by {
                    if p > 0 {
                        assert(!defines(rest[p - 1].symbols@, name));
                    }
                }
            }
        }
    }
}

/// No two entries of one object share a name: an object's symbols map
/// each name to one address.
pub open spec fn names_unique(entries: Seq<SymbolEntry>) -> bool {
    forall|i: int, j: int|
        0 <= i < j < entries.len() ==> #[trigger] entries[i].name@ != #[trigger] entries[j].name@
}

/// Every object's symbols map each name to one address.
pub open spec fn tables_well_formed(objects: Seq<ObjectSymbols>) -> bool {
    forall|o: int| 0 <= o < objects.len() ==> names_unique(#[trigger] objects[o].symbols@)
}

/// In an object whose names are unique, looking up the name of an entry
/// gives that entry's address.
pub proof fn lemma_unique_name_lookup(entries: Seq<SymbolEntry>, e: int)
    requires
        names_unique(entries),
        0 <= e < entries.len(),
    ensures
        find_in_object(entries, entries[e].name@) == Some(entries[e].addr),
{
    let name = entries[e].name@;
    lemma_find_in_object(entries, name);
    assert(defines(entries, name));
    let a = find_in_object(entries, name)->0;
    let f = choose|f: int|
        0 <= f < entries.len() && #[trigger] entries[f].name@ == name && entries[f].addr == a
            && forall|g: int| 0 <= g < f ==> #[trigger] entries[g].name@ != name;
    if f < e {
        assert(entries[f].name@ != entries[e].name@);
    } else if f > e {
        assert(entries[e].name@ != name);
    }
}

} // verus!
