use bsp_tree::bsp::{BspError, Ratio, BSP};
use bsp_tree::rng::{Lcg, RandomSource};

#[test]
fn created_destroyed_no_panic() {
    let bsp = BSP::new_with_size(0, 0, 50, 50).unwrap();
    let _left = bsp.left(0); // the unsplit root has no left child
}

#[test]
fn accessors() {
    let mut bsp = BSP::new_with_size(0, 0, 50, 60).unwrap();

    assert_eq!(bsp.node(0).x, 0);
    assert_eq!(bsp.node(0).y, 0);
    assert_eq!(bsp.node(0).w, 50);
    assert_eq!(bsp.node(0).h, 60);
    assert_eq!(bsp.horizontal(0), false);
    bsp.resize(10, 20, 50, 60).unwrap();
    bsp.set_horizontal(0, true);
    assert_eq!(bsp.node(0).x, 10);
    assert_eq!(bsp.node(0).y, 20);
    assert_eq!(bsp.horizontal(0), true);
}

#[test]
fn split() {
    let mut bsp = BSP::new_with_size(0, 0, 50, 50).unwrap();

    assert_eq!(bsp.node(0).position, 0);
    assert_eq!(bsp.horizontal(0), false);

    bsp.split_once(0, true, 20).unwrap();
    assert_eq!(bsp.node(0).position, 20);
    assert_eq!(bsp.horizontal(0), true);
}

#[test]
fn children() {
    let mut bsp = BSP::new_with_size(0, 0, 50, 50).unwrap();

    assert!(bsp.left(0).is_none());
    assert_eq!(bsp.node(0).level, 0);

    bsp.split_once(0, false, 20).unwrap();
    assert!(bsp.left(0).is_some());
    assert!(bsp.right(0).is_some());
    assert_eq!(bsp.node(bsp.left(0).unwrap()).level, 1);
    assert_eq!(bsp.node(bsp.right(0).unwrap()).level, 1);
}

#[test]
fn father() {
    let mut bsp = BSP::new_with_size(0, 0, 50, 50).unwrap();
    assert!(bsp.father(0).is_none());

    bsp.split_once(0, false, 30).unwrap();
    assert!(bsp.father(bsp.left(0).unwrap()).is_some());
    assert!(bsp.father(bsp.right(0).unwrap()).is_some());
}

#[test]
fn new_root_is_leaf_with_given_rect() {
    let bsp = BSP::new_with_size(0, 0, 50, 60).unwrap();
    assert_eq!(bsp.node(0).x, 0);
    assert_eq!(bsp.node(0).y, 0);
    assert_eq!(bsp.node(0).w, 50);
    assert_eq!(bsp.node(0).h, 60);
    assert!(bsp.is_leaf(0));
}

#[test]
fn split_once_horizontal_rects() {
    let mut bsp = BSP::new_with_size(0, 0, 50, 50).unwrap();
    bsp.split_once(0, true, 20).unwrap();

    assert_eq!(bsp.node(0).position, 20);
    assert_eq!(bsp.node(0).horizontal, true);

    let l = bsp.left(0).unwrap();
    let r = bsp.right(0).unwrap();
    assert_eq!(bsp.node(l).x, 0);
    assert_eq!(bsp.node(l).y, 0);
    assert_eq!(bsp.node(l).w, 50);
    assert_eq!(bsp.node(l).h, 20);
    assert_eq!(bsp.node(r).x, 0);
    assert_eq!(bsp.node(r).y, 20);
    assert_eq!(bsp.node(r).w, 50);
    assert_eq!(bsp.node(r).h, 30);
}

#[test]
fn split_once_vertical_children_and_father() {
    let mut bsp = BSP::new_with_size(0, 0, 50, 50).unwrap();
    bsp.split_once(0, false, 20).unwrap();

    let l = bsp.left(0).unwrap();
    let r = bsp.right(0).unwrap();
    assert_eq!(bsp.node(l).level, 1);
    assert_eq!(bsp.node(r).level, 1);
    assert_eq!(bsp.father(l), Some(0));
    assert_eq!(bsp.father(r), Some(0));
    assert!(bsp.father(0).is_none());
}

#[test]
fn unsplit_root_navigation_yields_sentinel() {
    let bsp = BSP::new_with_size(0, 0, 50, 50).unwrap();
    assert!(bsp.left(0).is_none());
    assert!(bsp.right(0).is_none());
    assert!(bsp.father(0).is_none());
}

#[test]
fn find_node_picks_the_containing_leaf() {
    let mut bsp = BSP::new_with_size(0, 0, 50, 50).unwrap();
    bsp.split_once(0, false, 20).unwrap();
    let l = bsp.left(0).unwrap();
    let r = bsp.right(0).unwrap();

    assert_eq!(bsp.find_node(0, 10, 10), Some(l));
    assert_eq!(bsp.find_node(0, 30, 10), Some(r));
    assert!(bsp.find_node(0, 50, 10).is_none());
    assert!(bsp.find_node(0, -1, 10).is_none());
    assert!(bsp.find_node(0, 10, 50).is_none());
}

#[test]
fn find_node_descends_to_a_leaf() {
    let mut bsp = BSP::new_with_size(0, 0, 50, 50).unwrap();
    bsp.split_once(0, false, 20).unwrap();
    let l = bsp.left(0).unwrap();
    bsp.split_once(l, true, 30).unwrap();

    let hit = bsp.find_node(0, 10, 40).unwrap();
    assert!(bsp.is_leaf(hit));
    assert!(bsp.contains(hit, 10, 40));
    assert_eq!(bsp.father(hit), Some(l));
}

#[test]
fn new_with_size_rejects_empty_rect() {
    assert_eq!(
        BSP::new_with_size(0, 0, 0, 5).err(),
        Some(BspError::InvalidDimensions)
    );
    assert_eq!(
        BSP::new_with_size(0, 0, 5, -1).err(),
        Some(BspError::InvalidDimensions)
    );
}

#[test]
fn split_once_rejects_positions_outside_the_span() {
    let mut bsp = BSP::new_with_size(10, 10, 20, 20).unwrap();
    assert_eq!(
        bsp.split_once(0, false, 10),
        Err(BspError::InvalidDimensions)
    );
    assert_eq!(
        bsp.split_once(0, false, 30),
        Err(BspError::InvalidDimensions)
    );
    assert_eq!(
        bsp.split_once(0, true, 5),
        Err(BspError::InvalidDimensions)
    );
    assert!(bsp.is_leaf(0));
    assert_eq!(bsp.split_once(0, false, 11), Ok(()));
}

#[test]
fn resize_rewrites_an_unsplit_root_only() {
    let mut bsp = BSP::new_with_size(0, 0, 50, 50).unwrap();
    assert_eq!(bsp.resize(5, 6, 70, 80), Ok(()));
    assert_eq!(bsp.node(0).x, 5);
    assert_eq!(bsp.node(0).y, 6);
    assert_eq!(bsp.node(0).w, 70);
    assert_eq!(bsp.node(0).h, 80);

    assert_eq!(bsp.resize(0, 0, 0, 80), Err(BspError::InvalidDimensions));

    bsp.split_once(0, true, 40).unwrap();
    assert_eq!(bsp.resize(0, 0, 60, 60), Err(BspError::InvalidOperation));
    assert_eq!(bsp.node(0).w, 70);
}

#[test]
fn remove_sons_turns_the_node_back_into_a_leaf() {
    let mut bsp = BSP::new_with_size(0, 0, 50, 50).unwrap();
    bsp.split_once(0, true, 20).unwrap();
    assert!(!bsp.is_leaf(0));

    bsp.remove_sons(0);
    assert!(bsp.is_leaf(0));
    assert_eq!(bsp.node(0).x, 0);
    assert_eq!(bsp.node(0).w, 50);
    assert_eq!(bsp.node(0).h, 50);

    bsp.split_once(0, false, 25).unwrap();
    assert!(!bsp.is_leaf(0));
}

#[test]
fn resplitting_replaces_the_children() {
    let mut bsp = BSP::new_with_size(0, 0, 50, 50).unwrap();
    bsp.split_once(0, true, 20).unwrap();
    let old_l = bsp.left(0).unwrap();
    let old_r = bsp.right(0).unwrap();

    bsp.split_once(0, false, 30).unwrap();
    let new_l = bsp.left(0).unwrap();
    let new_r = bsp.right(0).unwrap();
    assert_ne!(new_l, old_l);
    assert_ne!(new_r, old_r);
    assert_eq!(bsp.node(new_l).w, 30);
    assert_eq!(bsp.node(new_r).w, 20);
}

#[test]
fn children_partition_every_point_of_the_parent() {
    let mut bsp = BSP::new_with_size(3, 4, 9, 7).unwrap();
    bsp.split_once(0, true, 8).unwrap();
    let l = bsp.left(0).unwrap();
    let r = bsp.right(0).unwrap();

    for cx in 0..20 {
        for cy in 0..20 {
            let in_parent = bsp.contains(0, cx, cy);
            let in_l = bsp.contains(l, cx, cy);
            let in_r = bsp.contains(r, cx, cy);
            assert_eq!(in_parent, in_l || in_r);
            assert!(!(in_l && in_r));
        }
    }
}

#[test]
fn levels_grow_by_one_per_split() {
    let mut bsp = BSP::new_with_size(0, 0, 64, 64).unwrap();
    bsp.split_once(0, false, 32).unwrap();
    let l = bsp.left(0).unwrap();
    bsp.split_once(l, true, 32).unwrap();
    let ll = bsp.left(l).unwrap();

    assert_eq!(bsp.node(0).level, 0);
    assert_eq!(bsp.node(l).level, 1);
    assert_eq!(bsp.node(ll).level, 2);
}

#[test]
fn is_leaf_agrees_with_navigation() {
    let mut bsp = BSP::new_with_size(0, 0, 64, 64).unwrap();
    bsp.split_once(0, false, 32).unwrap();
    let l = bsp.left(0).unwrap();
    bsp.split_once(l, true, 32).unwrap();

    let mut stack: Vec<usize> = vec![0];
    while let Some(id) = stack.pop() {
        assert_eq!(
            bsp.is_leaf(id),
            bsp.left(id).is_none() && bsp.right(id).is_none()
        );
        if let Some(c) = bsp.left(id) {
            stack.push(c);
        }
        if let Some(c) = bsp.right(id) {
            stack.push(c);
        }
    }
}

#[test]
fn lcg_draws_stay_in_range() {
    let mut rng = Lcg::new(7);
    for _ in 0..200 {
        let r = rng.rand_between(-5, 17);
        assert!(-5 <= r && r <= 17);
    }
    let mut rng2 = Lcg::new(7);
    assert_eq!(rng2.rand_between(3, 3), 3);
}

#[test]
fn lcg_is_deterministic_per_seed() {
    let mut a = Lcg::new(42);
    let mut b = Lcg::new(42);
    for _ in 0..50 {
        assert_eq!(a.rand_between(0, 1000), b.rand_between(0, 1000));
    }
}

#[test]
fn split_recursive_respects_minimum_sizes() {
    let mut bsp = BSP::new_with_size(0, 0, 100, 100).unwrap();
    let mut rng = Lcg::new(123);
    bsp.split_recursive(
        0,
        &mut rng,
        4,
        5,
        5,
        Ratio { num: 3, den: 2 },
        Ratio { num: 3, den: 2 },
    );

    assert!(!bsp.is_leaf(0));
    let mut stack: Vec<usize> = vec![0];
    while let Some(id) = stack.pop() {
        let n = *bsp.node(id);
        assert!(n.w > 0 && n.h > 0);
        assert!(n.level <= 4);
        if let Some(p) = n.parent {
            if bsp.node(p).horizontal {
                assert!(n.h >= 5);
            } else {
                assert!(n.w >= 5);
            }
        }
        match (bsp.left(id), bsp.right(id)) {
            (Some(l), Some(r)) => {
                assert_eq!(bsp.node(l).level, n.level + 1);
                assert_eq!(bsp.node(r).level, n.level + 1);
                if n.horizontal {
                    assert_eq!(bsp.node(l).h + bsp.node(r).h, n.h);
                    assert_eq!(bsp.node(l).w, n.w);
                    assert_eq!(bsp.node(r).w, n.w);
                    assert_eq!(bsp.node(r).y, n.position);
                } else {
                    assert_eq!(bsp.node(l).w + bsp.node(r).w, n.w);
                    assert_eq!(bsp.node(l).h, n.h);
                    assert_eq!(bsp.node(r).h, n.h);
                    assert_eq!(bsp.node(r).x, n.position);
                }
                stack.push(l);
                stack.push(r);
            }
            (None, None) => {}
            _ => panic!("a split node must have both children"),
        }
    }
}

#[test]
fn split_recursive_is_reproducible_from_a_seed() {
    let mut a = BSP::new_with_size(0, 0, 80, 60).unwrap();
    let mut b = BSP::new_with_size(0, 0, 80, 60).unwrap();
    let mut ra = Lcg::new(9);
    let mut rb = Lcg::new(9);
    let ratio = Ratio { num: 3, den: 2 };
    a.split_recursive(0, &mut ra, 3, 4, 4, ratio, ratio);
    b.split_recursive(0, &mut rb, 3, 4, 4, ratio, ratio);

    let mut stack: Vec<usize> = vec![0];
    while let Some(id) = stack.pop() {
        assert_eq!(a.node(id).x, b.node(id).x);
        assert_eq!(a.node(id).y, b.node(id).y);
        assert_eq!(a.node(id).w, b.node(id).w);
        assert_eq!(a.node(id).h, b.node(id).h);
        assert_eq!(a.left(id), b.left(id));
        assert_eq!(a.right(id), b.right(id));
        if let Some(l) = a.left(id) {
            stack.push(l);
            stack.push(a.right(id).unwrap());
        }
    }
}

#[test]
fn split_recursive_with_zero_levels_changes_nothing() {
    let mut bsp = BSP::new_with_size(0, 0, 100, 100).unwrap();
    let mut rng = Lcg::new(11);
    let ratio = Ratio { num: 3, den: 2 };
    bsp.split_recursive(0, &mut rng, 0, 5, 5, ratio, ratio);
    assert!(bsp.is_leaf(0));
    bsp.split_recursive(0, &mut rng, -1, 5, 5, ratio, ratio);
    assert!(bsp.is_leaf(0));
}

#[test]
fn split_recursive_forces_the_axis_of_stretched_nodes() {
    // far wider than 3/2 times its height: the first split must be vertical
    let mut wide = BSP::new_with_size(0, 0, 100, 10).unwrap();
    let mut rng = Lcg::new(3);
    let ratio = Ratio { num: 3, den: 2 };
    wide.split_recursive(0, &mut rng, 1, 2, 2, ratio, ratio);
    assert!(!wide.is_leaf(0));
    assert_eq!(wide.horizontal(0), false);

    // far taller than 3/2 times its width: the first split must be horizontal
    let mut tall = BSP::new_with_size(0, 0, 10, 100).unwrap();
    let mut rng2 = Lcg::new(3);
    tall.split_recursive(0, &mut rng2, 1, 2, 2, ratio, ratio);
    assert!(!tall.is_leaf(0));
    assert_eq!(tall.horizontal(0), true);
}

#[test]
fn split_recursive_stops_when_too_small() {
    let mut bsp = BSP::new_with_size(0, 0, 8, 8).unwrap();
    let mut rng = Lcg::new(5);
    let ratio = Ratio { num: 3, den: 2 };
    bsp.split_recursive(0, &mut rng, 10, 5, 5, ratio, ratio);
    // neither axis fits two halves of at least 5: the root stays a leaf
    assert!(bsp.is_leaf(0));
}
