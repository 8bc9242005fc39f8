use bbl_portfolios::bbl::BBL;
use bbl_portfolios::portfolio_map::PortfolioBuilder;

#[test]
fn test_associate_is_symmetric_and_defines_both() {
    let a = BBL::new(1, 100, 1);
    let b = BBL::new(2, 200, 2);
    let mut builder = PortfolioBuilder::new();
    builder.associate(&a, &b);
    assert_eq!(builder.num_bbls(), 2);
    let pmap = builder.get_portfolios();
    assert_eq!(pmap.portfolios, vec![vec![a, b]]);
    assert_eq!(pmap.portfolio_index(&a), Some(0));
    assert_eq!(pmap.portfolio_index(&b), Some(0));
}

#[test]
fn test_associate_self_pair_is_a_no_op() {
    let a = BBL::new(1, 100, 1);
    let mut builder = PortfolioBuilder::new();
    builder.associate(&a, &a);
    assert_eq!(builder.num_bbls(), 0);
    let pmap = builder.get_portfolios();
    assert_eq!(pmap.portfolios.len(), 0);
    assert_eq!(pmap.bbl_mapping.len(), 0);
}

#[test]
fn test_associate_is_idempotent() {
    let a = BBL::new(1, 100, 1);
    let b = BBL::new(2, 200, 2);
    let mut once = PortfolioBuilder::new();
    once.associate(&a, &b);
    let mut twice = PortfolioBuilder::new();
    twice.associate(&a, &b);
    twice.associate(&a, &b);
    assert_eq!(once.num_bbls(), twice.num_bbls());
    let pmap_once = once.get_portfolios();
    let pmap_twice = twice.get_portfolios();
    assert_eq!(pmap_once.portfolios, pmap_twice.portfolios);
    assert_eq!(pmap_once.bbl_mapping, pmap_twice.bbl_mapping);
}

#[test]
fn test_partition_of_two_components() {
    let a = BBL::new(1, 1, 1);
    let b = BBL::new(1, 1, 2);
    let c = BBL::new(1, 1, 3);
    let d = BBL::new(2, 5, 1);
    let e = BBL::new(2, 5, 2);
    let mut builder = PortfolioBuilder::new();
    // insert in a scrambled order on purpose
    builder.associate(&d, &e);
    builder.associate(&b, &c);
    builder.associate(&a, &b);
    let pmap = builder.get_portfolios();
    assert_eq!(pmap.portfolios, vec![vec![a, b, c], vec![d, e]]);
    assert_eq!(
        pmap.bbl_mapping,
        vec![(a, 0), (b, 0), (c, 0), (d, 1), (e, 1)]
    );
}

#[test]
fn test_isolated_vertex_is_a_singleton_component() {
    let f = BBL::new(3, 42, 7);
    let mut builder = PortfolioBuilder::new();
    builder.define(&f);
    assert_eq!(builder.num_bbls(), 1);
    let pmap = builder.get_portfolios();
    assert_eq!(pmap.portfolios, vec![vec![f]]);
    assert_eq!(pmap.bbl_mapping, vec![(f, 0)]);
}

#[test]
fn test_define_is_idempotent() {
    let f = BBL::new(3, 42, 7);
    let mut builder = PortfolioBuilder::new();
    builder.define(&f);
    builder.define(&f);
    assert_eq!(builder.num_bbls(), 1);
    let pmap = builder.get_portfolios();
    assert_eq!(pmap.portfolios, vec![vec![f]]);
}

#[test]
fn test_partition_is_order_independent() {
    let a = BBL::new(1, 1, 1);
    let b = BBL::new(1, 1, 2);
    let c = BBL::new(1, 1, 3);
    let d = BBL::new(2, 5, 1);
    let e = BBL::new(2, 5, 2);
    let mut forward = PortfolioBuilder::new();
    forward.associate(&a, &b);
    forward.associate(&b, &c);
    forward.associate(&d, &e);
    let mut backward = PortfolioBuilder::new();
    backward.associate(&e, &d);
    backward.associate(&c, &b);
    backward.associate(&b, &a);
    let pmap_fwd = forward.get_portfolios();
    let pmap_bwd = backward.get_portfolios();
    assert_eq!(pmap_fwd.portfolios, pmap_bwd.portfolios);
    assert_eq!(pmap_fwd.bbl_mapping, pmap_bwd.bbl_mapping);
}

#[test]
fn test_vertex_count_is_number_of_distinct_bbls() {
    let bbls = vec![
        BBL::new(1, 1, 1),
        BBL::new(1, 1, 2),
        BBL::new(1, 1, 3),
        BBL::new(1, 1, 4),
        BBL::new(1, 1, 5),
    ];
    let mut builder = PortfolioBuilder::new();
    // many calls, some duplicated, some self-pairs, over 5 distinct BBLs
    builder.associate(&bbls[0], &bbls[1]);
    builder.associate(&bbls[1], &bbls[0]);
    builder.associate(&bbls[1], &bbls[2]);
    builder.associate(&bbls[2], &bbls[2]);
    builder.associate(&bbls[3], &bbls[4]);
    builder.associate(&bbls[0], &bbls[1]);
    builder.associate(&bbls[4], &bbls[3]);
    assert_eq!(builder.num_bbls(), 5);
}

#[test]
fn test_cycle_partitions_into_one_component() {
    let a = BBL::new(1, 1, 1);
    let b = BBL::new(1, 1, 2);
    let c = BBL::new(1, 1, 3);
    let mut builder = PortfolioBuilder::new();
    builder.associate(&a, &b);
    builder.associate(&b, &c);
    builder.associate(&c, &a);
    let pmap = builder.get_portfolios();
    assert_eq!(pmap.portfolios, vec![vec![a, b, c]]);
}

#[test]
fn test_portfolio_index_of_unknown_bbl_is_none() {
    let a = BBL::new(1, 1, 1);
    let b = BBL::new(1, 1, 2);
    let stranger = BBL::new(5, 5, 5);
    let mut builder = PortfolioBuilder::new();
    builder.associate(&a, &b);
    let pmap = builder.get_portfolios();
    assert_eq!(pmap.portfolio_index(&stranger), None);
}
