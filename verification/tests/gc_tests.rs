//! Exercises the collector end to end: allocation, rooting, collection,
//! projection, the destructor sweep and the growth heuristic.

use nickel_gc::gc::Word;
use nickel_gc::generation::Generation;
use nickel_gc::internals::{thread_block_count, thread_post_block_count};
use nickel_gc::root::{Root, RootGc};
use nickel_gc::{GcError, GcInfo};

fn info_int() -> GcInfo {
    GcInfo::new(1, 1, false, 1).unwrap()
}

fn info_tuple() -> GcInfo {
    GcInfo::new(9, 1, false, 2).unwrap()
}

fn info_opt() -> GcInfo {
    GcInfo::new(2, 1, false, 3).unwrap()
}

fn info_text() -> GcInfo {
    GcInfo::new(1, 1, false, 4).unwrap()
}

fn info_counted() -> GcInfo {
    GcInfo::new(1, 1, true, 5).unwrap()
}

/// A list cell of strings: the element and the handle of the next cell
/// (`Int(0)` marks the end).
fn info_list() -> GcInfo {
    GcInfo::new(2, 1, false, 6).unwrap()
}

/// A pair of a root-holding cell and a destructor-counted payload.
fn info_pair() -> GcInfo {
    GcInfo::new(2, 1, true, 7).unwrap()
}

/// A two-cell list whose both cells hold the same integer handle.
fn info_two_cells() -> GcInfo {
    GcInfo::new(2, 1, false, 8).unwrap()
}

fn list_from_vec(gen: &mut Generation, items: &[&str]) -> nickel_gc::gc::Gc {
    let mut next = Word::Int(0);
    let mut head = None;
    for s in items.iter().rev() {
        let h = gen.gc(vec![Word::Text((*s).to_string()), next], info_list());
        next = Word::Handle(h);
        head = Some(h);
    }
    head.unwrap()
}

fn list_to_vec(gen: &Generation, head: nickel_gc::gc::Gc) -> Vec<String> {
    let mut out = Vec::new();
    let mut cur = Some(head);
    while let Some(h) = cur {
        out.push(gen.read_text(h, 0).unwrap());
        cur = gen.read_handle(h, 1);
    }
    out
}

#[test]
fn lifetimes() {
    let mut gen = Generation::new();
    let one = gen.gc(vec![Word::Int(1)], info_int());
    let l1 = gen.gc(vec![Word::Handle(one), Word::Int(0)], info_two_cells());
    let _l2 = gen.gc(vec![Word::Handle(one), Word::Handle(l1)], info_two_cells());

    Root::collect_garbage(&mut gen);
    assert_eq!(thread_block_count(&gen), 0);
}

#[test]
fn alloc_and_drop() {
    let mut gen = Generation::new();
    let block_count = thread_block_count(&gen);
    for _ in 0..100_000 {
        gen.gc(
            vec![
                Word::Int(1),
                Word::Int(2),
                Word::Int(1),
                Word::Int(1),
                Word::Int(1),
                Word::Int(1),
                Word::Int(1),
                Word::Int(1),
                Word::Int(1),
            ],
            info_tuple(),
        );
        gen.gc(vec![Word::Int(1), Word::Int(1)], info_opt());
        gen.gc(vec![Word::Int(1), Word::Int(2)], info_opt());
        gen.gc(vec![Word::Text("foo".to_string())], info_text());
        gen.gc(vec![Word::Text("bar".to_string())], info_text());
        gen.gc(vec![Word::Int(1)], info_counted());
    }

    let block_count_1 = thread_block_count(&gen);

    Root::collect_garbage(&mut gen);

    let block_count_2 = thread_block_count(&gen);
    assert!(block_count < block_count_1);
    assert_eq!(block_count_2, 0);
    // every one of the destructor-counted objects died unmoved
    assert_eq!(gen.destructors_run, 100_000);
}

#[test]
fn roots() {
    let mut gen = Generation::new();
    let block_count = thread_block_count(&gen);

    let head1 = list_from_vec(&mut gen, &["Foo", "Bar", "Bazz"]);
    let root1 = Root::from_gc(&mut gen, head1);
    let head2 = list_from_vec(&mut gen, &["Foo", "Bar", "Bazz"]);
    let root2 = Root::from_gc(&mut gen, head2);

    let expect = vec!["Foo".to_string(), "Bar".to_string(), "Bazz".to_string()];

    Root::collect_garbage(&mut gen);

    let gc1 = gen.from_root(&root1, info_list()).unwrap();
    let gc2 = gen.try_from_root(&root2, info_list()).unwrap();
    assert_eq!(list_to_vec(&gen, gc1), expect);
    assert_eq!(list_to_vec(&gen, gc2), expect);

    Root::collect_garbage(&mut gen);

    let gc1 = gen.from_root(&root1, info_list()).unwrap();
    let gc2 = gen.try_from_root(&root2, info_list()).unwrap();
    assert_eq!(list_to_vec(&gen, gc1), expect);
    assert_eq!(list_to_vec(&gen, gc2), expect);

    gen.drop_root(root1);
    gen.drop_root(root2);
    Root::collect_garbage(&mut gen);

    let block_count_1 = thread_block_count(&gen);
    assert_eq!(block_count, block_count_1);
}

#[test]
fn cyclic_roots() {
    let mut gen = Generation::new();
    // a pair of a yet-empty cell and a destructor-counted payload
    let g = gen.gc(vec![Word::Int(0), Word::Int(1)], info_pair());
    let root = Root::from_gc(&mut gen, g);
    // store the only root handle into the object itself, closing the cycle
    gen.store_root(g, 0, root);

    let before = gen.destructors_run;
    // first pass: the pair was still reachable when seeded, so it is
    // evacuated once and demoted — every owner of its record now lives in
    // the heap, so it is no longer rooted
    Root::collect_garbage(&mut gen);
    assert_eq!(gen.destructors_run, before);
    assert_eq!(thread_block_count(&gen), 1);
    // second pass: the demoted cycle is unreachable and is reclaimed; the
    // pair's destructor runs exactly once
    Root::collect_garbage(&mut gen);
    assert_eq!(gen.destructors_run, before + 1);
    assert_eq!(thread_block_count(&gen), 0);
}

#[test]
fn nested_handles_share_address() {
    let mut gen = Generation::new();
    let one = gen.gc(vec![Word::Int(1)], info_int());
    let cells = gen.gc(vec![Word::Handle(one), Word::Handle(one)], info_two_cells());
    let root = Root::from_gc(&mut gen, cells);

    Root::collect_garbage(&mut gen);

    let list = gen.from_root(&root, info_two_cells()).unwrap();
    let a = gen.read_handle(list, 0).unwrap();
    let b = gen.read_handle(list, 1).unwrap();
    // both cells were rewritten to the same new address: the shared
    // object was copied once
    assert_eq!(a.as_ptr(), b.as_ptr());
    assert_ne!(a.as_ptr(), one.as_ptr());
    assert_eq!(gen.read_int(a, 0), Some(1));
}

#[test]
fn type_mismatch() {
    let mut gen = Generation::new();
    let head = list_from_vec(&mut gen, &["Foo"]);
    let root = Root::from_gc(&mut gen, head);

    Root::collect_garbage(&mut gen);

    assert!(gen.from_root(&root, info_int()).is_none());
    match gen.try_from_root(&root, info_int()) {
        Ok(_) => panic!("projected a list as an integer"),
        Err(e) => assert_eq!(e, GcError::TypeMismatch),
    }
    match RootGc::try_from(&gen, root, info_int()) {
        Ok(_) => panic!("projected a list as an integer"),
        Err((e, root)) => {
            assert_eq!(e, GcError::TypeMismatch);
            // the handle comes back and still projects at its own type
            assert!(gen.from_root(&root, info_list()).is_some());
            gen.drop_root(root);
        }
    }
}

#[test]
fn growth_triggered_collection() {
    let mut gen = Generation::new();
    for _ in 0..2_000 {
        gen.gc(
            vec![
                Word::Int(1),
                Word::Int(2),
                Word::Int(1),
                Word::Int(1),
                Word::Int(1),
                Word::Int(1),
                Word::Int(1),
                Word::Int(1),
                Word::Int(1),
            ],
            info_tuple(),
        );
        Root::maybe_collect_garbage(&mut gen);
        assert!(thread_block_count(&gen) <= 2 * thread_post_block_count(&gen) + 1);
    }
}

#[test]
fn ref_counts_track_handles() {
    let mut gen = Generation::new();
    let h = gen.gc(vec![Word::Int(5)], info_int());
    let r1 = Root::from_gc(&mut gen, h);
    let idx = r1.index();
    assert_eq!(gen.roots[idx].unwrap().ref_count, 1);

    let r2 = gen.clone_root(&r1);
    assert_eq!(r2.index(), idx);
    assert_eq!(gen.roots[idx].unwrap().ref_count, 2);

    // rooting the same object again shares the record
    let r3 = Root::from_gc(&mut gen, h);
    assert_eq!(r3.index(), idx);
    assert_eq!(gen.roots[idx].unwrap().ref_count, 3);

    gen.drop_root(r3);
    assert_eq!(gen.roots[idx].unwrap().ref_count, 2);
    gen.drop_root(r2);
    assert_eq!(gen.roots[idx].unwrap().ref_count, 1);
    gen.drop_root(r1);
    // the last owner going away frees the record
    assert!(gen.roots[idx].is_none());
}

#[test]
fn typed_roots() {
    let mut gen = Generation::new();
    let rg = RootGc::new(&mut gen, vec![Word::Int(7), Word::Int(8)], info_opt());
    let p = RootGc::as_ptr(&gen, &rg);

    Root::collect_garbage(&mut gen);

    let p2 = RootGc::as_ptr(&gen, &rg);
    assert_ne!(p, p2);
    let h = gen.from_root(&rg.root, rg.info).unwrap();
    assert_eq!(h.as_ptr(), p2);
    assert_eq!(gen.read_int(h, 0), Some(7));
    assert_eq!(gen.read_int(h, 1), Some(8));
}

#[test]
fn payload_survives_two_collections() {
    let mut gen = Generation::new();
    let h = gen.gc(
        vec![Word::Text("Foo".to_string()), Word::Int(41)],
        info_list(),
    );
    let root = Root::from_gc(&mut gen, h);

    Root::collect_garbage(&mut gen);
    Root::collect_garbage(&mut gen);

    let h2 = gen.from_root(&root, info_list()).unwrap();
    assert_eq!(gen.read_text(h2, 0), Some("Foo".to_string()));
    assert_eq!(gen.read_int(h2, 1), Some(41));
}

#[test]
fn descriptor_limits() {
    assert!(GcInfo::new(0, 1, false, 9).is_none());
    assert!(GcInfo::new(1, 0, false, 9).is_none());
    assert!(GcInfo::new(1, 65, false, 9).is_none());
    assert!(GcInfo::new(626, 1, false, 9).is_none());
    // the size must be a multiple of the alignment, as a type's size is
    assert!(GcInfo::new(65, 64, false, 9).is_none());
    assert!(GcInfo::new(576, 64, false, 9).is_some());
    assert!(GcInfo::new(625, 1, false, 9).is_some());
}

#[test]
fn block_base_masking() {
    assert_eq!(nickel_gc::blocks::Header::from_ptr(8192 * 3 + 17), 8192 * 3);
    assert_eq!(nickel_gc::blocks::Header::from_ptr(8192), 8192);
    assert_eq!(nickel_gc::blocks::Header::from_ptr(8191), 0);
}

#[test]
fn maybe_collect_below_threshold() {
    let mut gen = Generation::new();
    gen.gc(vec![Word::Int(1)], info_int());
    let before = thread_block_count(&gen);
    Root::maybe_collect_garbage(&mut gen);
    // one block does not exceed twice the baseline of two
    assert_eq!(thread_block_count(&gen), before);
}
