use bundler::binding::{Binding, BindingTable, BoundName};
use bundler::module::Atom;
use bundler::ModuleId;

const VALUE: Atom = Atom(1);
const INDEX: Atom = Atom(2);

#[test]
fn the_first_module_keeps_the_name() {
    let mut table = BindingTable::new();
    assert_eq!(table.register(ModuleId(1), VALUE), BoundName::Plain(VALUE));
    assert_eq!(table.register(ModuleId(2), VALUE), BoundName::Qualified(VALUE, ModuleId(2)));
    assert_eq!(table.register(ModuleId(3), VALUE), BoundName::Qualified(VALUE, ModuleId(3)));
    assert_eq!(table.register(ModuleId(2), INDEX), BoundName::Plain(INDEX));
    assert_eq!(table.len(), 4);
}

#[test]
fn a_binding_keeps_its_final_name() {
    let mut table = BindingTable::new();
    table.register(ModuleId(1), VALUE);
    let renamed = table.register(ModuleId(2), VALUE);
    assert_eq!(table.register(ModuleId(2), VALUE), renamed);
    assert_eq!(table.register(ModuleId(1), VALUE), BoundName::Plain(VALUE));
    assert_eq!(table.len(), 2);
    assert_eq!(table.lookup(ModuleId(2), VALUE), Some(renamed));
    assert_eq!(table.lookup(ModuleId(1), VALUE), Some(BoundName::Plain(VALUE)));
}

#[test]
fn what_was_not_registered_is_not_found() {
    let mut table = BindingTable::new();
    assert_eq!(table.lookup(ModuleId(1), VALUE), None);
    table.register(ModuleId(1), VALUE);
    assert_eq!(table.lookup(ModuleId(1), INDEX), None);
    assert_eq!(table.lookup(ModuleId(2), VALUE), None);
    assert_eq!(table.get(1), None);
    assert_eq!(
        table.get(0),
        Some(Binding { module: ModuleId(1), name: VALUE, bound: BoundName::Plain(VALUE) })
    );
}

#[test]
fn final_names_never_collide() {
    let mut table = BindingTable::new();
    for module in 0..6u32 {
        for name in 0..4u32 {
            table.register(ModuleId(module), Atom(name));
        }
    }
    assert_eq!(table.len(), 24);
    for i in 0..table.len() {
        for j in 0..i {
            assert_ne!(table.get(i).unwrap().bound, table.get(j).unwrap().bound);
        }
    }
}
