use elude::dynamic;
use elude::query::{
    all, join, many, one, read, Access, Filter, Found, Has, Not, Read, Write,
};
use elude::schema::{Column as SchemaColumn, Floats, Layout, LayoutError, Path, Schema, Type};
use elude::steps::{barrier, query, with};
use elude::store::{Column, Meta, Store, Table};
use elude::template::{Column as Value, Declare, Template};
use std::any::TypeId;

fn floats() -> Floats {
    Floats { single: TypeId::of::<f32>(), double: TypeId::of::<f64>() }
}

fn column(kind: Type) -> SchemaColumn {
    SchemaColumn { kind, path: Path }
}

#[test]
fn types_have_identifiers_sizes_and_layouts() {
    let floats = floats();
    assert_eq!(Type::Bool.identifier(&floats), TypeId::of::<bool>());
    assert_eq!(Type::Char.identifier(&floats), TypeId::of::<char>());
    assert_eq!(Type::U16.identifier(&floats), TypeId::of::<u16>());
    assert_eq!(Type::I128.identifier(&floats), TypeId::of::<i128>());
    assert_eq!(Type::Isize.identifier(&floats), TypeId::of::<isize>());
    assert_eq!(Type::F32.identifier(&floats), TypeId::of::<f32>());
    assert_eq!(Type::F64.identifier(&floats), TypeId::of::<f64>());
    assert_eq!(Type::F64.size(), std::mem::size_of::<f64>());
    assert_eq!(Type::Usize.size(), std::mem::size_of::<usize>());
    let layout = std::alloc::Layout::array::<u32>(7).unwrap();
    assert_eq!(
        Type::U32.layout(7),
        Ok(Layout { size: layout.size(), align: layout.align() })
    );
    let layout = std::alloc::Layout::array::<f64>(3).unwrap();
    assert_eq!(
        Type::F64.layout(3),
        Ok(Layout { size: layout.size(), align: layout.align() })
    );
    assert_eq!(Type::U16.layout(usize::MAX), Err(LayoutError));
    assert_eq!(Type::U8.layout(isize::MAX as usize + 1), Err(LayoutError));
}

#[test]
fn different_types_have_different_identifiers() {
    let floats = floats();
    let types = [
        Type::Bool,
        Type::Char,
        Type::U8,
        Type::U16,
        Type::U32,
        Type::U64,
        Type::U128,
        Type::Usize,
        Type::I8,
        Type::I16,
        Type::I32,
        Type::I64,
        Type::I128,
        Type::Isize,
        Type::F32,
        Type::F64,
    ];
    for left in types {
        for right in types {
            let same = left.identifier(&floats) == right.identifier(&floats);
            assert_eq!(same, left == right, "{left:?} and {right:?}");
        }
    }
}

#[test]
fn schemas_order_columns_and_count_rows() {
    let floats = floats();
    let columns = vec![
        column(Type::U64),
        column(Type::U8),
        column(Type::F32),
        column(Type::U64),
        column(Type::Bool),
    ];
    let schema = Schema::with_page_size(4096, &columns, &floats);
    assert_eq!(schema.capacity(), 512);
    let kinds: Vec<Type> = schema.columns().iter().map(|column| column.kind).collect();
    assert_eq!(kinds.len(), 4);
    assert_eq!(kinds[2], Type::F32);
    assert_eq!(kinds[3], Type::U64);
    assert!(kinds[0] != kinds[1]);
    assert!(kinds[..2].contains(&Type::U8) && kinds[..2].contains(&Type::Bool));

    let mut turned = columns.clone();
    turned.reverse();
    let other = Schema::with_page_size(4096, &turned, &floats);
    assert_eq!(other.columns(), schema.columns());
    assert_eq!(Schema::with_page_size(4096, &vec![], &floats).capacity(), u32::MAX);
    assert_eq!(
        Schema::with_page_size(usize::MAX, &vec![column(Type::U8)], &floats).capacity(),
        u32::MAX
    );
    let own = Schema::new(&vec![column(Type::U128)], &floats);
    assert_eq!(own.capacity() as usize, page_size::get() / 16);
}

#[test]
fn tables_have_one_column_for_each_type() {
    let table = Table::new(&vec![Meta::new::<u8>(), Meta::new::<u32>(), Meta::new::<u8>()]);
    assert_eq!(table.count(), 0);
    assert_eq!(table.columns().len(), 2);
    assert!(table.has(TypeId::of::<u8>()));
    assert!(table.has(TypeId::of::<u32>()));
    assert!(!table.has(TypeId::of::<u16>()));
    let first = table.columns()[0].meta().identifier;
    let second = table.columns()[1].meta().identifier;
    assert!(first < second);
    let cast = table.columns().iter().filter_map(|column| column.cast::<u32>()).count();
    assert_eq!(cast, 1);
    assert!(table.columns().iter().all(|column| column.cast::<u64>().is_none()));
    assert_eq!(table.columns()[0].pointer(), 1);
    let meta = Meta::new::<u64>();
    assert_eq!(meta.lay(4), Ok(Layout { size: 32, align: std::mem::align_of::<u64>() }));
    assert_eq!(meta.lay(usize::MAX), Err(LayoutError));
    assert_eq!(meta.add(64, 3), 88);
    assert_eq!(Column::<u8>::at(meta, 640).pointer(), 640);
}

#[test]
fn filters_choose_tables() {
    let table = Table::new(&vec![Meta::new::<u8>(), Meta::new::<u32>()]);
    let has = |identifier| Has::<()> { identifier, marker: std::marker::PhantomData };
    let here = TypeId::of::<u8>();
    let gone = TypeId::of::<i8>();
    assert!(().filter(&table));
    assert!((has(here),).filter(&table));
    assert!(!(has(here), has(gone)).filter(&table));
    assert!((has(here), Not(has(gone)), ()).filter(&table));
    assert!(!(has(here), (), (), has(gone)).filter(&table));
    assert!(Filter::filter(&Some(has(gone)), &table));
    assert!(one(read::<u8>()).filter(&table));
    assert!(!many(elude::query::write::<i8>()).filter(&table));
    assert!(all((read::<u8>(), elude::query::write::<u32>())).filter(&table));
    assert!(join(read::<i8>(), read::<u8>(), ()).filter(&table));
    assert!(!join(read::<i8>(), read::<i16>(), ()).filter(&table));

    let chosen = dynamic::Query::And(vec![
        dynamic::Query::One(dynamic::Access::And(vec![
            dynamic::Access::Read(here),
            dynamic::Access::Option(Box::new(dynamic::Access::Write(TypeId::of::<u32>()))),
        ])),
        dynamic::Query::Filter(dynamic::Filter::Not(Box::new(dynamic::Filter::Has(gone)))),
    ]);
    assert!(chosen.filter(&table));
    let refused = dynamic::Query::And(vec![
        dynamic::Query::Many(dynamic::Access::Read(here)),
        dynamic::Query::All(dynamic::Access::Option(Box::new(dynamic::Access::Write(gone)))),
    ]);
    assert!(!refused.filter(&table));
    assert!(dynamic::Filter::And(vec![]).filter(&table));
}

#[test]
fn queries_find_tables_as_they_are_added() {
    let mut store = Store::new();
    store.tables.push(Table::new(&vec![Meta::new::<u8>()]));
    store.tables.push(Table::new(&vec![Meta::new::<u16>()]));
    let access = (Read::<u8>::new(), ());
    let mut found = Found::new();
    found.update(&access, &store);
    assert_eq!(found.index, 2);
    assert_eq!(found.states, vec![((1, ()), 0)]);
    store.tables.push(Table::new(&vec![Meta::new::<u16>(), Meta::new::<u8>()]));
    found.update(&access, &store);
    assert_eq!(found.states, vec![((1, ()), 0), ((1, ()), 2)]);
    assert_eq!(Write::<u16>::new().initialize(&store.tables[0]), None);
    assert_eq!((Write::<u16>::new(),).initialize(&store.tables[1]), Some(1));
}

#[test]
fn templates_declare_choices() {
    let sizes = |lists: &Vec<Vec<Meta>>| -> Vec<Vec<usize>> {
        lists.iter().map(|list| list.iter().map(|meta| meta.size).collect()).collect()
    };
    let mut lists: Vec<Vec<Meta>> = vec![vec![]];
    <(Value<u8>, Option<Value<u16>>, Value<u32>)>::declare(Declare { lists: &mut lists });
    assert_eq!(sizes(&lists), vec![vec![1, 4], vec![1, 2, 4]]);
    let mut lists: Vec<Vec<Meta>> = vec![vec![]];
    <Option<(Value<u8>, Option<Value<u16>>)>>::declare(Declare { lists: &mut lists });
    assert_eq!(sizes(&lists), vec![vec![], vec![1], vec![1, 2], vec![1, 1, 2]]);
    let mut lists: Vec<Vec<Meta>> = vec![vec![]];
    <((), (Value<u64>,), (), ())>::declare(Declare { lists: &mut lists });
    assert_eq!(sizes(&lists), vec![vec![8]]);
    assert_eq!(lists[0][0].identifier, TypeId::of::<u64>());
    assert_eq!(Value::new(5).value, 5);
}

#[test]
fn steps_hold_what_they_were_given() {
    let _ = barrier();
    assert_eq!(with(3).0, 3);
    assert_eq!(query((), 4).1, 4);
}

#[test]
fn schemas_are_the_same_in_any_order() {
    let floats = floats();
    let forward = vec![column(Type::U8), column(Type::U64), column(Type::I16), column(Type::F32)];
    let backward: Vec<SchemaColumn> = forward.iter().rev().chain(&forward).copied().collect();
    let first = Schema::with_page_size(4096, &forward, &floats);
    let second = Schema::with_page_size(4096, &backward, &floats);
    assert_eq!(first.capacity(), second.capacity());
    assert_eq!(first.columns(), second.columns());
    assert_eq!(first.columns().len(), 4);
    assert_eq!(first.columns()[3], column(Type::U64));
}

#[test]
fn tables_are_the_same_in_any_order() {
    let metas = vec![Meta::new::<u8>(), Meta::new::<u64>(), Meta::new::<char>()];
    let reversed: Vec<Meta> = metas.iter().rev().copied().collect();
    let sizes = |table: &Table| -> Vec<usize> {
        table.columns().iter().map(|column| column.meta().size).collect()
    };
    let first = Table::new(&metas);
    let second = Table::new(&reversed);
    assert_eq!(sizes(&first), sizes(&second));
    assert_eq!(first.columns().len(), 3);
}
