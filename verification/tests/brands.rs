use rust_examples::brands::{BrandedVec, InvariantLifetime};

#[test]
fn branded_vectors_keep_their_indices_apart() {
    let vec1 = vec![10, 11];
    let vec2 = vec![20, 21];

    BrandedVec::make(vec1, move |mut bvec1| {
        bvec1.push(12);
        let i1 = bvec1.push(13);

        BrandedVec::make(vec2, move |mut bvec2| {
            let i2 = bvec2.push(22);
            *bvec2.get_mut(i2) -= 1;

            assert_eq!(bvec1.get(i1), &13);
            assert_eq!(bvec2.get(i2), &21);
        });
    });
}

#[test]
fn get_index_checks_the_bounds() {
    let found = BrandedVec::make(vec!['a', 'b', 'c'], |bvec| {
        let first = bvec.get_index(0).map(|i| *bvec.get(i));
        let last = bvec.get_index(2).map(|i| *bvec.get(i));
        let beyond = bvec.get_index(3).map(|i| *bvec.get(i));
        (first, last, beyond)
    });
    assert_eq!(found, (Some('a'), Some('c'), None));
}

#[test]
fn get_index_on_an_empty_vector() {
    let any = BrandedVec::make(Vec::<u8>::new(), |bvec| bvec.get_index(0).is_some());
    assert!(!any);
}

#[test]
fn push_returns_the_index_of_the_new_element() {
    let read_back = BrandedVec::make(vec![1u32], |mut bvec| {
        let second = bvec.push(2);
        let third = bvec.push(3);
        *bvec.get_mut(second) += 40;
        (*bvec.get(second), *bvec.get(third))
    });
    assert_eq!(read_back, (42, 3));
}

#[test]
fn make_returns_what_the_closure_returns() {
    assert_eq!(BrandedVec::make(vec![1, 2, 3], |_bvec| "done"), "done");
}

#[test]
fn markers_take_no_space() {
    assert_eq!(
        std::mem::size_of::<InvariantLifetime<'_>>(),
        std::mem::size_of::<()>()
    );
    assert_eq!(
        std::mem::size_of::<BrandedVec<'_, u8>>(),
        std::mem::size_of::<Vec<u8>>()
    );
}
