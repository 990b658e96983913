//! The names that bindings get in a bundle.
//!
//! Bindings of different modules share one scope in a bundle. The first
//! module to bring a name keeps it; a later one gets the name qualified by
//! its module. No two bindings get the same final name.

use vstd::prelude::*;
use crate::id::ModuleId;
use crate::module::Atom;

verus! {

/// A final name: the name as written, or the name qualified by a module.
#[derive(Clone, Copy, PartialEq, Eq, Structural, Debug)]
pub enum BoundName {
    Plain(Atom),
    Qualified(Atom, ModuleId),
}

/// A top-level binding of `module`, written `name`, and its final name.
#[derive(Clone, Copy, PartialEq, Eq, Structural, Debug)]
pub struct Binding {
    pub module: ModuleId,
    pub name: Atom,
    pub bound: BoundName,
}

/// The final name of the first binding from `i` on that is `name` of
/// `module`.
pub open spec fn bound_from(table: Seq<Binding>, module: ModuleId, name: Atom, i: int) -> Option<
    BoundName,
>
    decreases table.len() - i,
{
    if i < 0 || i >= table.len() {
        None
    } else if table[i].module == module && table[i].name == name {
        Some(table[i].bound)
    } else {
        bound_from(table, module, name, i + 1)
    }
}

/// The final name of `name` of `module`, if the table has the binding.
pub open spec fn bound_of(table: Seq<Binding>, module: ModuleId, name: Atom) -> Option<BoundName> {
    bound_from(table, module, name, 0)
}

/// Whether some binding has kept `name` as it is written.
pub open spec fn holds_plain(table: Seq<Binding>, name: Atom) -> bool {
    exists|i: int| 0 <= i < table.len() && (#[trigger] table[i]).bound == BoundName::Plain(name)
}

/// The name that `name` of `module` gets when it comes to the table anew.
pub open spec fn fresh_name(table: Seq<Binding>, module: ModuleId, name: Atom) -> BoundName {
    if holds_plain(table, name) {
        BoundName::Qualified(name, module)
    } else {
        BoundName::Plain(name)
    }
}

/// The table with `name` of `module` in it: as it was if it had the binding,
/// else with the binding added under its fresh name.
pub open spec fn registered(table: Seq<Binding>, module: ModuleId, name: Atom) -> Seq<Binding> {
    if bound_of(table, module, name) is Some {
        table
    } else {
        table.push(Binding { module, name, bound: fresh_name(table, module, name) })
    }
}

/// Whether the table is sound: a final name is the written name, plain or
/// qualified by the binding's module; no binding occurs twice; and no two
/// bindings have the same final name.
pub open spec fn sound(table: Seq<Binding>) -> bool {
    &&& forall|i: int|
        0 <= i < table.len() ==> (#[trigger] table[i]).bound == BoundName::Plain(table[i].name)
            || table[i].bound == BoundName::Qualified(table[i].name, table[i].module)
    &&& forall|i: int, j: int|
        0 <= i < j < table.len() ==> !((#[trigger] table[i]).module == (#[trigger] table[j]).module
            && table[i].name == table[j].name)
    &&& forall|i: int, j: int|
        0 <= i < j < table.len() ==> (#[trigger] table[i]).bound != (#[trigger] table[j]).bound
}

/// What a lookup from `i` on finds: the first binding with the key, or that
/// there is none.
pub proof fn lemma_bound_from(table: Seq<Binding>, module: ModuleId, name: Atom, i: int)
    requires
        0 <= i <= table.len(),
    ensures
        match bound_from(table, module, name, i) {
            None => forall|k: int|
                i <= k < table.len() ==> !((#[trigger] table[k]).module == module && table[k].name
                    == name),
            Some(bound) => exists|k: int|
                i <= k < table.len() && (#[trigger] table[k]).module == module && table[k].name
                    == name && table[k].bound == bound,
        },
    decreases table.len() - i,
{
    if i < table.len() && !(table[i].module == module && table[i].name == name) {
        lemma_bound_from(table, module, name, i + 1);
    }
}

/// In a sound table two bindings never have the same final name.
pub proof fn lemma_no_collision(table: Seq<Binding>, i: int, j: int)
    requires
        sound(table),
        0 <= i < table.len(),
        0 <= j < table.len(),
        i != j,
    ensures
        table[i].bound != table[j].bound,
        !(table[i].module == table[j].module && table[i].name == table[j].name),
{
    if i < j {
        assert(table[i].bound != table[j].bound);
    } else {
        assert(table[j].bound != table[i].bound);
    }
}

/// A sound table stays sound when a binding comes to it.
pub proof fn lemma_registered_sound(table: Seq<Binding>, module: ModuleId, name: Atom)
    requires
        sound(table),
    ensures
        sound(registered(table, module, name)),
{
    lemma_bound_from(table, module, name, 0);
    if bound_of(table, module, name) is None {
        let after = registered(table, module, name);
        let last = table.len() as int;
        assert forall|i: int, j: int| 0 <= i < j < after.len() implies (#[trigger] after[i]).bound
            != (#[trigger] after[j]).bound by {
            if j == last {
                assert(after[i] == table[i]);
            } else {
                assert(after[i] == table[i] && after[j] == table[j]);
            }
        }
        assert forall|i: int, j: int| 0 <= i < j < after.len() implies !((
        #[trigger] after[i]).module == (#[trigger] after[j]).module && after[i].name
            == after[j].name) by {
            if j == last {
                assert(after[i] == table[i]);
            } else {
                assert(after[i] == table[i] && after[j] == table[j]);
            }
        }
        assert forall|i: int| 0 <= i < after.len() implies (#[trigger] after[i]).bound
            == BoundName::Plain(after[i].name) || after[i].bound == BoundName::Qualified(
            after[i].name,
            after[i].module,
        ) by {
            if i < last {
                assert(after[i] == table[i]);
            }
        }
    }
}

/// A lookup after a binding came finds what it found before, and the new
/// binding under its fresh name.
pub proof fn lemma_registered_lookup(
    table: Seq<Binding>,
    module: ModuleId,
    name: Atom,
    other: ModuleId,
    wanted: Atom,
    i: int,
)
    requires
        0 <= i <= table.len(),
    ensures
        bound_from(registered(table, module, name), other, wanted, i) == if bound_from(
            table,
            other,
            wanted,
            i,
        ) is Some {
            bound_from(table, other, wanted, i)
        } else if other == module && wanted == name && bound_of(table, module, name) is None {
            Some(fresh_name(table, module, name))
        } else {
            None
        },
    decreases table.len() - i,
{
    let after = registered(table, module, name);
    if i < table.len() {
        assert(after[i] == table[i]);
        if !(table[i].module == other && table[i].name == wanted) {
            lemma_registered_lookup(table, module, name, other, wanted, i + 1);
        }
    } else if bound_of(table, module, name) is None {
        assert(after[i] == Binding { module, name, bound: fresh_name(table, module, name) });
        assert(bound_from(after, other, wanted, i + 1) is None);
    }
}

/// Whether some binding of the table is written `name`.
pub open spec fn has_name(table: Seq<Binding>, name: Atom) -> bool {
    exists|k: int| 0 <= k < table.len() && (#[trigger] table[k]).name == name
}

/// Whether every name that is written in the table is kept by one binding.
pub open spec fn plain_first(table: Seq<Binding>) -> bool {
    forall|k: int| 0 <= k < table.len() ==> holds_plain(table, (#[trigger] table[k]).name)
}

/// In a table where every written name is kept by one binding, a name is
/// kept exactly if it is written.
pub proof fn lemma_plain_iff_named(table: Seq<Binding>, name: Atom)
    requires
        sound(table),
        plain_first(table),
    ensures
        holds_plain(table, name) <==> has_name(table, name),
{
    if holds_plain(table, name) {
        let i = choose|i: int|
            0 <= i < table.len() && (#[trigger] table[i]).bound == BoundName::Plain(name);
        assert(table[i].name == name);
    }
    if has_name(table, name) {
        let k = choose|k: int| 0 <= k < table.len() && (#[trigger] table[k]).name == name;
        assert(holds_plain(table, table[k].name));
    }
}

/// What a binding that comes to the table changes: the table grows at its
/// end by at most this binding, every written name is still kept by one
/// binding, and the names written are those of before and the new one.
pub proof fn lemma_registered_names(table: Seq<Binding>, module: ModuleId, name: Atom)
    requires
        sound(table),
        plain_first(table),
    ensures
        plain_first(registered(table, module, name)),
        has_name(registered(table, module, name), name),
        forall|x: Atom|
            #[trigger] has_name(registered(table, module, name), x) <==> has_name(table, x) || x
                == name,
        table.len() <= registered(table, module, name).len(),
        forall|k: int|
            0 <= k < registered(table, module, name).len() ==> if k < table.len() {
                (#[trigger] registered(table, module, name)[k]) == table[k]
            } else {
                registered(table, module, name)[k].module == module
            },
{
    let after = registered(table, module, name);
    lemma_bound_from(table, module, name, 0);
    if bound_of(table, module, name) is Some {
        let k = choose|k: int|
            0 <= k < table.len() && (#[trigger] table[k]).module == module && table[k].name
                == name;
        assert(has_name(table, name));
    } else {
        let last = table.len() as int;
        assert(after[last].name == name);
        assert forall|x: Atom| has_name(after, x) implies has_name(table, x) || x == name by {
            let k = choose|k: int| 0 <= k < after.len() && (#[trigger] after[k]).name == x;
            if k < last {
                assert(table[k].name == x);
            }
        }
        assert forall|x: Atom| has_name(table, x) implies has_name(after, x) by {
            let k = choose|k: int| 0 <= k < table.len() && (#[trigger] table[k]).name == x;
            assert(after[k].name == x);
        }
        assert forall|k: int| 0 <= k < after.len() implies holds_plain(
            after,
            (#[trigger] after[k]).name,
        ) by {
            if k < last {
                assert(after[k] == table[k]);
                assert(holds_plain(table, table[k].name));
                let i = choose|i: int|
                    0 <= i < table.len() && (#[trigger] table[i]).bound == BoundName::Plain(
                        table[k].name,
                    );
                assert(after[i].bound == BoundName::Plain(after[k].name));
            } else if holds_plain(table, name) {
                let i = choose|i: int|
                    0 <= i < table.len() && (#[trigger] table[i]).bound == BoundName::Plain(name);
                assert(after[i].bound == BoundName::Plain(name));
            } else {
                assert(after[last].bound == BoundName::Plain(name));
            }
        }
    }
}

/// The final names of the bindings of one bundle.
pub struct BindingTable {
    entries: Vec<Binding>,
}

impl View for BindingTable {
    type V = Seq<Binding>;

    closed spec fn view(&self) -> Seq<Binding> {
        self.entries@
    }
}

impl BindingTable {
    /// Whether the table is sound. A new table is, and `register` keeps it so.
    pub open spec fn wf(&self) -> bool {
        sound(self@)
    }

    /// A table with no binding.
    pub fn new() -> (table: BindingTable)
        ensures
            table@ == Seq::<Binding>::empty(),
            table.wf(),
    {
        BindingTable { entries: Vec::new() }
    }

    /// How many bindings the table has.
    pub fn len(&self) -> (n: usize)
        ensures
            n == self@.len(),
    {
        self.entries.len()
    }

    /// The `i`th binding, in the order in which the bindings came.
    pub fn get(&self, i: usize) -> (binding: Option<Binding>)
        ensures
            binding == if i < self@.len() {
                Some(self@[i as int])
            } else {
                None
            },
    {
        if i < self.entries.len() {
            Some(self.entries[i])
        } else {
            None
        }
    }

    /// The final name of `name` of `module`.
    pub fn lookup(&self, module: ModuleId, name: Atom) -> (bound: Option<BoundName>)
        ensures
            bound == bound_of(self@, module, name),
    {
        let mut i: usize = 0;
        while i < self.entries.len()
            invariant
                i <= self.entries@.len(),
                bound_of(self.entries@, module, name) == bound_from(
                    self.entries@,
                    module,
                    name,
                    i as int,
                ),
            decreases self.entries.len() - i,
        {
            let entry = self.entries[i];
            if entry.module == module && entry.name == name {
                return Some(entry.bound);
            }
            i += 1;
        }
        None
    }

    fn has_plain(&self, name: Atom) -> (b: bool)
        ensures
            b == holds_plain(self@, name),
    {
        let mut i: usize = 0;
        while i < self.entries.len()
            invariant
                i <= self.entries@.len(),
                forall|k: int|
                    0 <= k < i ==> (#[trigger] self.entries@[k]).bound != BoundName::Plain(name),
            decreases self.entries.len() - i,
        {
            if self.entries[i].bound == BoundName::Plain(name) {
                return true;
            }
            i += 1;
        }
        false
    }

    /// Brings `name` of `module` to the table and tells its final name. A
    /// binding that the table has keeps its name; a new one gets the name as
    /// written unless another binding has it, and then the name qualified by
    /// its module.
    pub fn register(&mut self, module: ModuleId, name: Atom) -> (bound: BoundName)
        requires
            old(self).wf(),
        ensures
            final(self).wf(),
            final(self)@ == registered(old(self)@, module, name),
            bound_of(final(self)@, module, name) == Some(bound),
    {
        proof {
            lemma_registered_sound(self.entries@, module, name);
            lemma_registered_lookup(self.entries@, module, name, module, name, 0);
        }
        match self.lookup(module, name) {
            Some(bound) => bound,
            None => {
                let bound = if self.has_plain(name) {
                    BoundName::Qualified(name, module)
                } else {
                    BoundName::Plain(name)
                };
                self.entries.push(Binding { module, name, bound });
                bound
            },
        }
    }
}

} // verus!
