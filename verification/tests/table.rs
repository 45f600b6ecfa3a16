use bytes::BytesMut;
use pagedb::catalog::{Column, Schema, Type};
use pagedb::disk::Memory;
use pagedb::error::Error;
use pagedb::page::PAGE_SIZE;
use pagedb::page_cache::PageCache;
use pagedb::replacer::LruK;
use pagedb::table::list::List;
use pagedb::table::node::Node;
use pagedb::table::tuple::{
    order_bytes, Comparand, Order, RId, Slot, Tuple, TupleBuilder, TupleMeta, Value,
};
use std::cmp::Ordering;

#[test]
fn test_table() {
    const MEMORY: usize = PAGE_SIZE * 1;
    const K: usize = 2;

    let disk = Memory::new(MEMORY);
    let lru = LruK::new(K);
    let mut pc = PageCache::new(disk, lru, 0);

    let mut list = List::default();
    if let Some(_) = list.get(&mut pc, RId { page_id: 0, slot_id: 0 }).unwrap() {
        panic!("uninitialised list should return None")
    }

    let meta = TupleMeta { deleted: false };
    let tuple_a = BytesMut::from(&std::array::from_fn::<u8, 10, _>(|i| (i * 2) as u8)[..]);
    let tuple_b = BytesMut::from(&std::array::from_fn::<u8, 15, _>(|i| (i * 3) as u8)[..]);

    let r_id_a = list.insert(&mut pc, &tuple_a, &meta).unwrap().unwrap();
    let r_id_b = list.insert(&mut pc, &tuple_b, &meta).unwrap().unwrap();

    let list = List::new(list.first_page_id, list.last_page_id);

    let (_, have_a) = list.get(&mut pc, r_id_a).unwrap().unwrap();
    let (_, have_b) = list.get(&mut pc, r_id_b).unwrap().unwrap();

    assert_eq!(tuple_a, have_a.data);
    assert_eq!(tuple_b, have_b.data);
}

#[test]
fn test_iter() {
    const MEMORY: usize = PAGE_SIZE * 4;
    const K: usize = 2;

    let disk = Memory::new(MEMORY);
    let lru = LruK::new(K);
    let mut pc = PageCache::with_pool_size(disk, lru, 0, 4);

    let first_page = pc.new_page().unwrap();
    let first_page_id = first_page.id;
    pc.unpin(first_page);
    let mut list = List::new(first_page_id, first_page_id);

    const WANT_LEN: usize = 100;
    let meta = TupleMeta { deleted: false };
    let mut tuples = Vec::new();
    for i in 0..WANT_LEN {
        let tuple = BytesMut::from(&std::array::from_fn::<u8, 150, _>(|j| (j * i) as u8)[..]);
        list.insert(&mut pc, &tuple, &meta).unwrap();
        tuples.push(tuple);
    }

    let mut have = Vec::new();
    let mut it = list.iter(&mut pc).unwrap();
    while let Some(result) = it.next(&list, &mut pc) {
        have.push((have.len(), result));
    }

    assert_eq!(have.len(), WANT_LEN);

    for (i, result) in have {
        let (_, tuple) = result.unwrap();

        assert_eq!(tuples[i], tuple.data)
    }

    // the scan is the iteration
    let all = list.scan(&mut pc).unwrap();
    assert_eq!(all.len(), WANT_LEN);
    for (i, (meta, tuple)) in all.iter().enumerate() {
        assert!(!meta.deleted);
        assert_eq!(tuples[i], tuple.data);
        assert_eq!(tuple.rid, RId { page_id: (i / 25) as i32, slot_id: (i % 25) as u32 });
    }
}

#[test]
fn test_comparator() {
    let rid = RId { page_id: 0, slot_id: 0 };

    struct Test {
        schema: Schema,
        lhs: BytesMut,
        rhs: BytesMut,
        want: Ordering,
    }

    let tcs = [
        Test {
            schema: Schema::new(vec![
                Column { name: "col_a".into(), ty: Type::Int, offset: 0 },
                Column { name: "col_b".into(), ty: Type::Bool, offset: 4 },
                Column { name: "col_c".into(), ty: Type::BigInt, offset: 5 },
            ]),
            lhs: TupleBuilder::new()
                .add(&Value::Int(4))
                .add(&Value::Bool(false))
                .add(&Value::BigInt(100))
                .build(),
            rhs: TupleBuilder::new()
                .add(&Value::Int(4))
                .add(&Value::Bool(false))
                .add(&Value::BigInt(100))
                .build(),
            want: Ordering::Equal,
        },
        Test {
            schema: Schema::new(vec![
                Column { name: "col_a".into(), ty: Type::Int, offset: 0 },
                Column { name: "col_b".into(), ty: Type::Bool, offset: 4 },
                Column { name: "col_c".into(), ty: Type::BigInt, offset: 5 },
            ]),
            lhs: TupleBuilder::new()
                .add(&Value::Int(4))
                .add(&Value::Bool(true))
                .add(&Value::BigInt(100))
                .build(),
            rhs: TupleBuilder::new()
                .add(&Value::Int(4))
                .add(&Value::Bool(false))
                .add(&Value::BigInt(100))
                .build(),
            want: Ordering::Greater,
        },
        Test {
            schema: Schema::new(vec![
                Column { name: "col_a".into(), ty: Type::Int, offset: 0 },
                Column { name: "col_b".into(), ty: Type::Bool, offset: 4 },
                Column { name: "col_c".into(), ty: Type::BigInt, offset: 5 },
            ]),
            lhs: TupleBuilder::new()
                .add(&Value::Int(4))
                .add(&Value::Bool(false))
                .add(&Value::BigInt(90))
                .build(),
            rhs: TupleBuilder::new()
                .add(&Value::Int(4))
                .add(&Value::Bool(false))
                .add(&Value::BigInt(100))
                .build(),
            want: Ordering::Less,
        },
        Test {
            schema: Schema::new(vec![
                Column { name: "col_a".into(), ty: Type::TinyInt, offset: 0 },
                Column { name: "col_b".into(), ty: Type::Varchar, offset: 1 },
            ]),
            lhs: TupleBuilder::new()
                .add(&Value::TinyInt(1))
                .add(&Value::Varchar("Column".into()))
                .build(),
            rhs: TupleBuilder::new()
                .add(&Value::TinyInt(1))
                .add(&Value::Varchar("Column".into()))
                .build(),
            want: Ordering::Equal,
        },
        Test {
            schema: Schema::new(vec![
                Column { name: "col_a".into(), ty: Type::Varchar, offset: 0 },
                Column { name: "col_b".into(), ty: Type::TinyInt, offset: 255 + 2 },
            ]),
            lhs: TupleBuilder::new()
                .add(&Value::Varchar("Column A".into()))
                .add(&Value::TinyInt(1))
                .build(),
            rhs: TupleBuilder::new()
                .add(&Value::Varchar("Column B".into()))
                .add(&Value::TinyInt(1))
                .build(),
            want: Ordering::Less,
        },
        Test {
            schema: Schema::new(vec![
                Column { name: "col_a".into(), ty: Type::Varchar, offset: 0 },
                Column { name: "col_b".into(), ty: Type::TinyInt, offset: 255 + 2 },
            ]),
            lhs: TupleBuilder::new()
                .add(&Value::Varchar("Column A".into()))
                .add(&Value::TinyInt(1))
                .build(),
            rhs: TupleBuilder::new()
                .add(&Value::Varchar("Column".into()))
                .add(&Value::TinyInt(1))
                .build(),
            want: Ordering::Greater,
        },
    ];

    for Test { schema, lhs, rhs, want } in tcs {
        let lhs = Tuple { rid, data: lhs };
        let rhs = Tuple { rid, data: rhs };

        let have = Comparand(&schema, &lhs).cmp(&Comparand(&schema, &rhs));
        assert_eq!(want, have);
    }
}

fn int_bool_bigint() -> Schema {
    Schema::new(vec![
        Column { name: "col_a".into(), ty: Type::Int, offset: 0 },
        Column { name: "col_b".into(), ty: Type::Bool, offset: 4 },
        Column { name: "col_c".into(), ty: Type::BigInt, offset: 5 },
    ])
}

fn tuple_of(values: &[Value]) -> Tuple {
    let mut b = TupleBuilder::new();
    for v in values {
        b = b.add(v);
    }
    Tuple { rid: RId { page_id: 0, slot_id: 0 }, data: b.build() }
}

#[test]
fn comparator_orders_by_the_first_column_that_differs() {
    let schema = int_bool_bigint();
    let lhs = tuple_of(&[Value::Int(4), Value::Bool(false), Value::BigInt(100)]);
    let rhs = tuple_of(&[Value::Int(4), Value::Bool(true), Value::BigInt(100)]);
    assert_eq!(Comparand(&schema, &lhs).cmp(&Comparand(&schema, &rhs)), Ordering::Less);
    assert_eq!(Comparand(&schema, &rhs).cmp(&Comparand(&schema, &lhs)), Ordering::Greater);
    assert_eq!(Comparand(&schema, &lhs).order(&Comparand(&schema, &rhs)), Order::Less);
    assert!(!Comparand(&schema, &lhs).eq(&Comparand(&schema, &rhs)));
    assert!(Comparand(&schema, &lhs).eq(&Comparand(&schema, &lhs)));

    // an earlier column decides, whatever the later ones say
    let lhs = tuple_of(&[Value::Int(-5), Value::Bool(true), Value::BigInt(i64::MAX)]);
    let rhs = tuple_of(&[Value::Int(3), Value::Bool(false), Value::BigInt(i64::MIN)]);
    assert_eq!(Comparand(&schema, &lhs).cmp(&Comparand(&schema, &rhs)), Ordering::Less);
}

#[test]
fn values_compare_as_the_derived_order_does() {
    let values = [
        Value::TinyInt(-3),
        Value::TinyInt(5),
        Value::Bool(false),
        Value::Bool(true),
        Value::Int(i32::MIN),
        Value::Int(7),
        Value::BigInt(-1),
        Value::BigInt(1 << 40),
        Value::Varchar("".into()),
        Value::Varchar("Column".into()),
        Value::Varchar("Column A".into()),
        Value::Varchar("Column B".into()),
        Value::Varchar("b".into()),
        Value::Varchar("é".into()),
    ];
    for a in &values {
        for b in &values {
            let want = match a.cmp(b) {
                Ordering::Less => Order::Less,
                Ordering::Equal => Order::Equal,
                Ordering::Greater => Order::Greater,
            };
            assert_eq!(a.order(b), want, "{:?} {:?}", a, b);
        }
    }
    assert_eq!(order_bytes(b"ab", b"abc"), Order::Less);
    assert_eq!(order_bytes(b"b", b"abc"), Order::Greater);
    assert_eq!(order_bytes(b"", b""), Order::Equal);
}

#[test]
fn builder_lays_tuples_out_byte_exact() {
    let data = TupleBuilder::new()
        .add(&Value::TinyInt(-2))
        .add(&Value::Varchar("héllo".into()))
        .add(&Value::Bool(true))
        .add(&Value::Int(258))
        .add(&Value::Varchar("".into()))
        .add(&Value::BigInt(-1))
        .add(&Value::Varchar("xy".into()))
        .build();
    let mut want: Vec<u8> = vec![0xfe];
    want.extend_from_slice(&[0, 26, 0, 6]); // "héllo" is six bytes, behind the fixed part
    want.push(1);
    want.extend_from_slice(&[0, 0, 1, 2]);
    want.extend_from_slice(&[0, 32, 0, 0]);
    want.extend_from_slice(&[0xff; 8]);
    want.extend_from_slice(&[0, 32, 0, 2]);
    assert_eq!(want.len(), 26);
    want.extend_from_slice("héllo".as_bytes());
    want.extend_from_slice(b"xy");
    assert_eq!(&data[..], &want[..]);

    let schema = [
        Column { name: "a".into(), ty: Type::TinyInt, offset: 0 },
        Column { name: "b".into(), ty: Type::Varchar, offset: 1 },
        Column { name: "c".into(), ty: Type::Bool, offset: 5 },
        Column { name: "d".into(), ty: Type::Int, offset: 6 },
        Column { name: "e".into(), ty: Type::Varchar, offset: 10 },
        Column { name: "f".into(), ty: Type::BigInt, offset: 14 },
        Column { name: "g".into(), ty: Type::Varchar, offset: 22 },
    ];
    let tuple = Tuple { rid: RId { page_id: 1, slot_id: 2 }, data };
    assert_eq!(tuple.get_value(&schema[0]), Value::TinyInt(-2));
    assert_eq!(tuple.get_value(&schema[1]), Value::Varchar("héllo".into()));
    assert_eq!(tuple.get_value(&schema[2]), Value::Bool(true));
    assert_eq!(tuple.get_value(&schema[3]), Value::Int(258));
    assert_eq!(tuple.get_value(&schema[4]), Value::Varchar("".into()));
    assert_eq!(tuple.get_value(&schema[5]), Value::BigInt(-1));
    assert_eq!(tuple.get_value(&schema[6]), Value::Varchar("xy".into()));
    assert_eq!(Value::from(&schema[3], &tuple.data), Value::Int(258));
}

#[test]
fn builder_with_capacity_builds_the_same() {
    let a = TupleBuilder::with_capacity(64).add(&Value::Int(1)).build();
    let b = TupleBuilder::new().add(&Value::Int(1)).build();
    assert_eq!(a, b);
    assert_eq!(&a[..], &[0, 0, 0, 1]);
    assert_eq!(TupleBuilder::new().build().len(), 0);
}

#[test]
fn value_from_reads_big_endian() {
    let data = [0x80u8, 0, 2, 0xff, 0xff, 0xff, 0xfe, 0, 0, 0, 0, 0, 0, 1, 0];
    let col = |ty, offset| Column { name: "c".into(), ty, offset };
    assert_eq!(Value::from(&col(Type::TinyInt, 0), &data), Value::TinyInt(-128));
    assert_eq!(Value::from(&col(Type::Bool, 1), &data), Value::Bool(false));
    assert_eq!(Value::from(&col(Type::Bool, 2), &data), Value::Bool(true));
    assert_eq!(Value::from(&col(Type::Int, 3), &data), Value::Int(-2));
    assert_eq!(Value::from(&col(Type::BigInt, 7), &data), Value::BigInt(256));
    assert_eq!(Type::Varchar.size(), 4);
    assert_eq!(col(Type::BigInt, 0).size(), 8);
}

#[test]
fn slot_record_is_nine_bytes() {
    let slot = Slot { offset: 4000, len: 96, meta: TupleMeta { deleted: true } };
    let bytes = slot.to_bytes();
    assert_eq!(bytes, vec![0, 0, 0x0f, 0xa0, 0, 0, 0, 96, 1]);
    assert_eq!(Slot::from(&bytes), slot);
    assert_eq!(Slot::SIZE, 9);
    assert_eq!(TupleMeta::from(&[0]), TupleMeta { deleted: false });
    assert_eq!(TupleMeta::from(&[1]), TupleMeta { deleted: true });
    assert_eq!(TupleMeta { deleted: false }.to_byte(), 0);
}

#[test]
fn heap_node_layout_is_byte_exact() {
    let zeros = vec![0u8; PAGE_SIZE];
    let mut node = Node::from(&zeros).unwrap();
    assert_eq!(node.len(), 0);
    assert_eq!(node.next_page_id(), 0);
    let meta = TupleMeta { deleted: false };
    let gone = TupleMeta { deleted: true };
    assert_eq!(node.insert(&BytesMut::from(&b"abc"[..]), &meta), Some(0));
    assert_eq!(node.insert(&BytesMut::from(&b"de"[..]), &gone), Some(1));
    node.set_next_page_id(7);
    let page = node.to_page();
    assert_eq!(&page[0..8], &[0, 0, 0, 7, 0, 0, 0, 2]);
    assert_eq!(&page[8..17], &[0, 0, 0x0f, 0xfd, 0, 0, 0, 3, 0]);
    assert_eq!(&page[17..26], &[0, 0, 0x0f, 0xfb, 0, 0, 0, 2, 1]);
    assert!(page[26..4091].iter().all(|b| *b == 0));
    assert_eq!(&page[4091..], b"deabc");

    let again = Node::from(&page).unwrap();
    assert_eq!(again.len(), 2);
    assert_eq!(again.next_page_id(), 7);
    let rid = RId { page_id: 3, slot_id: 1 };
    let (m, t) = again.get(&rid).unwrap();
    assert!(m.deleted);
    assert_eq!(&t.data[..], b"de");
    assert_eq!(t.rid, rid);
    assert!(again.get(&RId { page_id: 3, slot_id: 2 }).is_none());
    assert_eq!(again.to_page(), page);
}

#[test]
fn heap_node_admits_what_fits() {
    let zeros = vec![0u8; PAGE_SIZE];
    let mut node = Node::from(&zeros).unwrap();
    assert!(node.admits(PAGE_SIZE - 17));
    assert!(!node.admits(PAGE_SIZE - 16));
    let meta = TupleMeta { deleted: false };
    assert_eq!(node.insert(&BytesMut::zeroed(PAGE_SIZE - 16), &meta), None);
    assert_eq!(node.len(), 0);
    assert_eq!(node.insert(&BytesMut::zeroed(PAGE_SIZE - 17), &meta), Some(0));
    assert_eq!(node.insert(&BytesMut::new(), &meta), None);
    assert!(!node.admits(0));
}

#[test]
fn malformed_pages_hold_no_heap_node() {
    let mut page = vec![0u8; PAGE_SIZE];
    page[6] = 2; // 512 slots do not fit
    assert!(Node::from(&page).is_none());
    let mut page = vec![0u8; PAGE_SIZE];
    page[7] = 1; // one slot, whose tuple does not end at the end of the page
    assert!(Node::from(&page).is_none());
    assert!(Node::from(&vec![0u8; 12]).is_none());
}

#[test]
fn list_moves_on_to_a_new_page_when_the_last_is_full() {
    let mut pc = PageCache::with_pool_size(Memory::new(8 * PAGE_SIZE), LruK::new(2), 0, 2);
    let mut list = List::default();
    let meta = TupleMeta { deleted: false };
    let big = BytesMut::zeroed(3000);
    assert_eq!(list.insert(&mut pc, &big, &meta), Ok(Some(RId { page_id: 0, slot_id: 0 })));
    assert_eq!((list.first_page_id, list.last_page_id), (0, 0));
    assert_eq!(list.insert(&mut pc, &big, &meta), Ok(Some(RId { page_id: 1, slot_id: 0 })));
    assert_eq!((list.first_page_id, list.last_page_id), (0, 1));
    let small = BytesMut::from(&b"x"[..]);
    assert_eq!(list.insert(&mut pc, &small, &meta), Ok(Some(RId { page_id: 1, slot_id: 1 })));
    let first = Node::from(&pc.read_page(0).unwrap()).unwrap();
    assert_eq!(first.next_page_id(), 1);
    assert_eq!(list.scan(&mut pc).unwrap().len(), 3);
    assert_eq!(list.get(&mut pc, RId { page_id: 1, slot_id: 2 }), Ok(None));
    assert_eq!(list.get(&mut pc, RId { page_id: 9, slot_id: 0 }), Err(Error::Disk));
}

#[test]
fn list_errors() {
    let mut pc = PageCache::with_pool_size(Memory::new(PAGE_SIZE), LruK::new(2), 0, 1);
    let mut list = List::default();
    let meta = TupleMeta { deleted: false };
    let too_large = BytesMut::zeroed(PAGE_SIZE - 16);
    assert_eq!(list.insert(&mut pc, &too_large, &meta), Err(Error::TupleTooLarge));
    assert_eq!(list, List::default());
    let big = BytesMut::zeroed(PAGE_SIZE - 17);
    assert_eq!(list.insert(&mut pc, &big, &meta), Ok(Some(RId { page_id: 0, slot_id: 0 })));
    // the store has no second page
    assert_eq!(list.insert(&mut pc, &big, &meta), Err(Error::Disk));
    let guard = pc.fetch_page(0).unwrap();
    assert_eq!(list.insert(&mut pc, &big, &meta), Err(Error::OutOfMemory));
    assert_eq!(list.get(&mut pc, RId { page_id: 0, slot_id: 0 }), Err(Error::OutOfMemory));
    assert!(list.iter(&mut pc).is_err());
    assert!(list.scan(&mut pc).is_err());
    pc.unpin(guard);
    assert!(list.get(&mut pc, RId { page_id: 0, slot_id: 0 }).unwrap().is_some());
}

#[test]
fn a_page_that_holds_no_heap_node_is_corrupt() {
    let mut pc = PageCache::new(Memory::new(4 * PAGE_SIZE), LruK::new(2), 0);
    let id = pc.create_page().unwrap();
    let mut page = vec![0u8; PAGE_SIZE];
    page[6] = 2; // 512 slots do not fit
    pc.write_page(id, &page).unwrap();
    let mut list = List::new(id, id);
    let meta = TupleMeta { deleted: false };
    let tuple = BytesMut::from(&b"x"[..]);
    assert_eq!(list.insert(&mut pc, &tuple, &meta), Err(Error::Corrupt));
    assert_eq!(list.get(&mut pc, RId { page_id: id, slot_id: 0 }), Err(Error::Corrupt));
    assert_eq!(list.iter(&mut pc), Err(Error::Corrupt));
    assert_eq!(list.scan(&mut pc), Err(Error::Corrupt));
}

#[test]
fn an_insertion_adds_its_tuple_behind_the_others() {
    let mut pc = PageCache::with_pool_size(Memory::new(16 * PAGE_SIZE), LruK::new(2), 0, 2);
    let mut list = List::default();
    let mut want: Vec<(TupleMeta, Tuple)> = Vec::new();
    for i in 0..40u8 {
        let meta = TupleMeta { deleted: i % 3 == 0 };
        let data = BytesMut::from(&vec![i; 100 + 20 * usize::from(i)][..]);
        let rid = list.insert(&mut pc, &data, &meta).unwrap().unwrap();
        want.push((meta, Tuple { rid, data }));
        assert_eq!(list.scan(&mut pc).unwrap(), want);
    }
    assert!(list.first_page_id < list.last_page_id);
}

#[test]
fn a_value_has_its_text() {
    assert_eq!(Value::TinyInt(-7).text(), "-7");
    assert_eq!(Value::Bool(true).text(), "true");
    assert_eq!(Value::Bool(false).text(), "false");
    assert_eq!(Value::Int(i32::MIN).text(), "-2147483648");
    assert_eq!(Value::BigInt(9_000_000_000).text(), "9000000000");
    assert_eq!(Value::Varchar("héllo".into()).text(), "héllo");
}

#[test]
fn try_from_reads_what_the_bytes_hold() {
    let int = Column { name: "a".into(), ty: Type::Int, offset: 1 };
    assert_eq!(Value::try_from(&int, &[9, 0, 0, 1, 2]), Some(Value::Int(258)));
    assert_eq!(Value::try_from(&int, &[9, 0, 0, 1]), None);
    let far = Column { name: "a".into(), ty: Type::Bool, offset: usize::MAX };
    assert_eq!(Value::try_from(&far, &[1]), None);
    let text = Column { name: "t".into(), ty: Type::Varchar, offset: 0 };
    assert_eq!(
        Value::try_from(&text, &[0, 4, 0, 2, b'o', b'k']),
        Some(Value::Varchar("ok".into()))
    );
    // the payload reaches past the end
    assert_eq!(Value::try_from(&text, &[0, 4, 0, 3, b'o', b'k']), None);
    // the payload is not UTF-8
    assert_eq!(Value::try_from(&text, &[0, 4, 0, 2, 0xff, 0xfe]), None);
    // the inline bytes do
    assert_eq!(Value::try_from(&text, &[0, 4, 0]), None);
    let tuple = Tuple { rid: RId { page_id: 0, slot_id: 0 }, data: BytesMut::from(&[0u8, 1][..]) };
    let tiny = Column { name: "x".into(), ty: Type::TinyInt, offset: 1 };
    assert_eq!(tuple.try_get_value(&tiny), Some(Value::TinyInt(1)));
    assert_eq!(tuple.try_get_value(&int), None);
}

#[test]
fn tuples_that_hold_no_value_do_not_compare() {
    let schema = int_bool_bigint();
    let a = tuple_of(&[Value::Int(4), Value::Bool(false), Value::BigInt(100)]);
    let b = tuple_of(&[Value::Int(4), Value::Bool(true), Value::BigInt(100)]);
    let lhs = Comparand(&schema, &a);
    let rhs = Comparand(&schema, &b);
    assert_eq!(lhs.try_order(&rhs), Some(Order::Less));
    assert_eq!(rhs.try_order(&lhs), Some(Order::Greater));
    assert_eq!(lhs.try_order(&lhs), Some(Order::Equal));
    assert_eq!(lhs.partial_cmp(&rhs), Some(Ordering::Less));
    assert_eq!(rhs.partial_cmp(&lhs), Some(Ordering::Greater));
    assert_eq!(lhs.partial_cmp(&lhs), Some(Ordering::Equal));
    let short = Tuple { rid: RId { page_id: 0, slot_id: 0 }, data: BytesMut::from(&[0u8, 0, 0, 4][..]) };
    let cut = Comparand(&schema, &short);
    assert_eq!(lhs.try_order(&cut), None);
    assert_eq!(cut.partial_cmp(&lhs), None);
    // decided by the first column, the missing ones are not read
    let less = Tuple { rid: RId { page_id: 0, slot_id: 0 }, data: BytesMut::from(&[0u8, 0, 0, 3][..]) };
    assert_eq!(Comparand(&schema, &less).try_order(&lhs), Some(Order::Less));
}

#[test]
fn an_empty_list_iterates_over_nothing() {
    let mut pc = PageCache::new(Memory::new(4 * PAGE_SIZE), LruK::new(2), 0);
    let list = List::default();
    let mut it = list.iter(&mut pc).unwrap();
    assert!(it.next(&list, &mut pc).is_none());
    assert_eq!(list.scan(&mut pc), Ok(vec![]));
}

#[test]
fn the_iteration_is_the_same_after_flush_and_reopen() {
    let mut pc = PageCache::with_pool_size(Memory::new(16 * PAGE_SIZE), LruK::new(2), 0, 2);
    let mut list = List::default();
    let meta = TupleMeta { deleted: false };
    for i in 0..60u8 {
        let tuple = BytesMut::from(&[i; 200][..]);
        list.insert(&mut pc, &tuple, &meta).unwrap();
    }
    let before = list.scan(&mut pc).unwrap();
    assert_eq!(before.len(), 60);
    let next = pc.next_page_id();
    let mut pc = pc.reopen(LruK::new(2), next);
    let list = List::new(list.first_page_id, list.last_page_id);
    let after = list.scan(&mut pc).unwrap();
    assert_eq!(before, after);
    // and without the flush the store had not seen every page
    let mut pc = PageCache::with_pool_size(Memory::new(16 * PAGE_SIZE), LruK::new(2), 0, 8);
    let mut list = List::default();
    list.insert(&mut pc, &BytesMut::from(&b"x"[..]), &meta).unwrap();
    let mut pc = PageCache::new(pc.into_disk(), LruK::new(2), 1);
    assert_eq!(list.scan(&mut pc), Ok(vec![]));
}
