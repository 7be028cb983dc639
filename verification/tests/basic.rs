use ic3::block::are_new;
use ic3::fault::Fault;
use ic3::lit::{
    common_lits, concat_lits, copy_lits, has_lit, lit_codes, negate_lits, reverse_lits, same_lits,
    sort_lits, subsume, Lit, Var,
};
use ic3::mic::{handle_down_success, Order};
use ic3::multi::{reorder, standard_variants};
use ic3::options::{IC3Options, Options};
use ic3::param::{DropVarParameter, MicType};

fn lits(codes: &[u32]) -> Vec<Lit> {
    codes.iter().map(|c| Lit(*c)).collect()
}

#[test]
fn literal_codes() {
    assert_eq!(Lit::new(Var(3), true), Lit(6));
    assert_eq!(Lit::new(Var(3), false), Lit(7));
    assert_eq!(Var(3).lit(), Lit(6));
    assert_eq!(Lit(7).var(), Var(3));
    assert!(Lit(6).polarity());
    assert!(!Lit(7).polarity());
}

#[test]
fn literal_negation() {
    assert_eq!(Lit(6).negate(), Lit(7));
    assert_eq!(Lit(7).negate(), Lit(6));
    assert_eq!(Lit(u32::MAX).negate(), Lit(u32::MAX - 1));
    assert_eq!(Lit(6).not_if(true), Lit(7));
    assert_eq!(Lit(6).not_if(false), Lit(6));
}

#[test]
fn highest_variable_has_literals() {
    assert_eq!(Lit::new(Var(0x7fff_ffff), false), Lit(u32::MAX));
}

#[test]
fn cubes_are_sorted_by_code() {
    assert_eq!(sort_lits(&lits(&[7, 2, 9, 2])), lits(&[2, 2, 7, 9]));
    assert_eq!(sort_lits(&lits(&[])), lits(&[]));
}

#[test]
fn cubes_are_taken_apart_and_put_together() {
    let c = lits(&[8, 3, 5]);
    assert_eq!(copy_lits(&c), c);
    assert_eq!(reverse_lits(&c), lits(&[5, 3, 8]));
    assert_eq!(negate_lits(&c), lits(&[9, 2, 4]));
    assert!(has_lit(&c, Lit(3)));
    assert!(!has_lit(&c, Lit(2)));
    assert_eq!(common_lits(&c, &lits(&[5, 8, 1])), lits(&[8, 5]));
    assert_eq!(lit_codes(&c), vec![8, 3, 5]);
    assert_eq!(concat_lits(&c, &lits(&[1])), lits(&[8, 3, 5, 1]));
    assert!(same_lits(&c, &lits(&[8, 3, 5])));
    assert!(!same_lits(&c, &lits(&[3, 8, 5])));
    assert!(!same_lits(&c, &lits(&[8, 3])));
}

#[test]
fn shorter_cubes_subsume() {
    assert!(subsume(&lits(&[2, 4]), &lits(&[4, 6, 2])));
    assert!(subsume(&lits(&[]), &lits(&[4])));
    assert!(!subsume(&lits(&[2, 5]), &lits(&[4, 6, 2])));
    assert!(!subsume(&lits(&[2, 2]), &lits(&[2])));
}

#[test]
fn parameters_go_down_a_level() {
    let p = DropVarParameter::new(4, 3, 2);
    assert_eq!(p.sub_level(), DropVarParameter::new(4, 3, 1));
    assert_eq!(DropVarParameter::default(), DropVarParameter::new(0, 0, 0));
}

fn options(ctg: bool, multi_clauses: usize) -> Options {
    Options {
        ic3: IC3Options {
            ctg,
            ctg_limit: 4,
            ctg_max: 6,
            multi_clauses,
            dynamic: false,
            enable_ctx_mab: false,
            hybrid_sort: false,
            topo_sort: false,
            reverse_sort: false,
            inn: false,
            abs_cst: false,
            ctp: false,
            no_pred_prop: false,
        },
        rseed: 0,
    }
}

#[test]
fn options_choose_how_to_generalize() {
    let plain = DropVarParameter::new(0, 0, 0);
    let ctg = DropVarParameter::new(4, 6, 1);
    assert_eq!(MicType::from_options(&options(false, 0)), MicType::DropVar(plain));
    assert_eq!(MicType::from_options(&options(false, 1)), MicType::DropVar(plain));
    assert_eq!(MicType::from_options(&options(true, 1)), MicType::DropVar(ctg));
    assert_eq!(MicType::from_options(&options(false, 2)), MicType::MultiClauses(plain, 2));
    assert_eq!(MicType::from_options(&options(true, 5)), MicType::MultiClauses(ctg, 5));
}

#[test]
fn dropping_goes_on_after_what_was_tried() {
    let cube = lits(&[2, 4, 6, 8]);
    assert_eq!(handle_down_success(&cube, 1, &lits(&[8, 2])), Ok((lits(&[2, 8]), 1)));
    assert_eq!(handle_down_success(&cube, 0, &lits(&[6])), Ok((lits(&[6]), 0)));
    assert_eq!(handle_down_success(&cube, 2, &lits(&[2, 4])), Ok((lits(&[2, 4]), 2)));
    assert_eq!(handle_down_success(&cube, 0, &lits(&[])), Ok((lits(&[]), 0)));
}

#[test]
fn dropping_refuses_the_dropped_literal() {
    let cube = lits(&[2, 4, 6]);
    assert_eq!(handle_down_success(&cube, 1, &lits(&[4, 6])), Err(Fault::StrangeCore));
    assert_eq!(handle_down_success(&cube, 0, &lits(&[2])), Err(Fault::StrangeCore));
}

#[test]
fn literals_are_reordered() {
    assert_eq!(reorder(&lits(&[2, 4, 6]), &vec![2, 0, 1]), lits(&[6, 2, 4]));
}

#[test]
fn variants_cover_the_orders() {
    let cube = lits(&[2, 4]);
    let order = Order { hybrid: true, topo: false, reverse: true };
    let all = standard_variants(&cube, order, false, 5);
    let orders: Vec<(bool, bool)> = all.iter().map(|v| (v.topo, v.reverse)).collect();
    assert_eq!(
        orders,
        vec![(false, true), (false, false), (true, true), (true, false), (false, false)]
    );
    assert!(all.iter().all(|v| v.cube == cube));
    assert_eq!(standard_variants(&cube, order, false, 4).len(), 4);
    assert_eq!(standard_variants(&cube, order, false, 1).len(), 1);
    assert_eq!(standard_variants(&cube, order, true, 5).len(), 1);
}

#[test]
fn constraints_are_new() {
    assert!(are_new(&lits(&[2]), &lits(&[4, 6])));
    assert!(are_new(&lits(&[2]), &lits(&[])));
    assert!(!are_new(&lits(&[2]), &lits(&[4, 2])));
    assert!(!are_new(&lits(&[]), &lits(&[4, 4])));
}
