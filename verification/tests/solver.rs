use paintshop::parser::parse;
use paintshop::solver::solve;
use paintshop::types::{CustomerPreferences, Finish, Solution, Specification};

/// Independent completeness check: every customer has at least one entry
/// whose item received exactly the finish it asks for.
fn every_customer_satisfied(choices: &[Finish], prefs: &[CustomerPreferences]) -> bool {
    prefs.iter().all(|p| {
        let mut hit = false;
        let mut i = 0;
        while i < p.len() {
            let (item, finish) = p.entry(i);
            if choices[item - 1] == finish {
                hit = true;
            }
            i += 1;
        }
        hit
    })
}

#[test]
fn it_finds_solution() {
    let mut essentials = CustomerPreferences::new();
    essentials.insert(1, Finish::Matte);
    essentials.insert(3, Finish::Matte);

    let mut pref1 = CustomerPreferences::new();
    pref1.insert(1, Finish::Matte);

    let mut pref2 = CustomerPreferences::new();
    pref2.insert(2, Finish::Gloss);
    pref2.insert(1, Finish::Gloss);

    let mut pref3 = CustomerPreferences::new();
    pref3.insert(3, Finish::Matte);

    let preferences = vec![pref1, pref2, pref3];

    let spec = Specification {
        num_colors: 3,
        essentials,
        preferences,
    };

    let solution = solve(spec);

    assert_eq!(
        solution.unwrap(),
        Solution {
            cost: 2,
            choices: vec![Finish::Matte, Finish::Gloss, Finish::Matte,]
        }
    )
}

#[test]
fn it_finds_no_solution() {
    let input = "1\n1 M\n1 G".as_bytes();
    let spec = parse(input).unwrap();
    let solution = solve(spec);

    assert!(solution.is_none())
}

#[test]
fn empty_instance_has_the_empty_solution() {
    let spec = Specification::new(0, vec![]).unwrap();
    let solution = solve(spec).unwrap();
    assert_eq!(solution.cost, 0);
    assert_eq!(solution.choices, vec![]);
}

#[test]
fn returned_solution_satisfies_every_customer_and_every_essential() {
    let spec = parse("4\n1 M\n2 G 1 G\n4 M 3 G\n4 M".as_bytes()).unwrap();
    let solution = solve(parse("4\n1 M\n2 G 1 G\n4 M 3 G\n4 M".as_bytes()).unwrap()).unwrap();

    assert!(every_customer_satisfied(
        &solution.choices,
        &spec.preferences
    ));
    let mut i = 0;
    while i < spec.essentials.len() {
        let (item, finish) = spec.essentials.entry(i);
        assert_eq!(solution.choices[item - 1], finish);
        i += 1;
    }
}

#[test]
fn gloss_is_preferred_when_customers_allow_it() {
    let spec = parse("2\n1 G 2 G".as_bytes()).unwrap();
    let solution = solve(spec).unwrap();
    assert_eq!(solution.cost, 0);
    assert_eq!(solution.choices, vec![Finish::Gloss, Finish::Gloss]);
}

#[test]
fn single_mandated_matte_costs_one() {
    let spec = parse("1\n1 M".as_bytes()).unwrap();
    let solution = solve(spec).unwrap();
    assert_eq!(solution.cost, 1);
    assert_eq!(solution.choices, vec![Finish::Matte]);
}

#[test]
fn extending_a_solution_adds_exactly_the_choice_cost() {
    let root = Solution::new();
    assert_eq!(root.cost, 0);
    assert_eq!(root.len(), 0);

    let matte = root.extend(Finish::Matte);
    assert_eq!(matte.cost, root.cost + 1);
    assert_eq!(matte.len(), 1);

    let gloss = root.extend(Finish::Gloss);
    assert_eq!(gloss.cost, root.cost);
    assert_eq!(gloss.len(), 1);

    let deeper = matte.extend(Finish::Gloss);
    assert_eq!(deeper.cost, matte.cost);
    assert_eq!(deeper.choices, vec![Finish::Matte, Finish::Gloss]);
}

#[test]
fn undecided_items_never_count_as_violations() {
    let mut pref1 = CustomerPreferences::new();
    pref1.insert(2, Finish::Matte);
    let spec = Specification::new(2, vec![pref1]).unwrap();

    let partial = Solution::new().extend(Finish::Gloss);
    assert!(!partial.violates_contraints(&spec));

    let full = partial.extend(Finish::Gloss);
    assert!(full.violates_contraints(&spec));
}

#[test]
fn a_decided_conflict_is_detected_at_any_depth() {
    let mut pref1 = CustomerPreferences::new();
    pref1.insert(1, Finish::Matte);
    let spec = Specification::new(3, vec![pref1]).unwrap();

    let partial = Solution::new().extend(Finish::Gloss);
    assert!(partial.violates_contraints(&spec));
}

#[test]
fn completeness_is_a_disjunction_within_one_customer() {
    let mut pref1 = CustomerPreferences::new();
    pref1.insert(1, Finish::Matte);
    pref1.insert(2, Finish::Matte);
    let spec = Specification::new(2, vec![pref1]).unwrap();

    let only_second = Solution::new().extend(Finish::Gloss).extend(Finish::Matte);
    assert!(only_second.complete(&spec));

    let neither = Solution::new().extend(Finish::Gloss).extend(Finish::Gloss);
    assert!(!neither.complete(&spec));
}

#[test]
fn constructor_rejects_items_out_of_range() {
    let mut pref1 = CustomerPreferences::new();
    pref1.insert(3, Finish::Matte);
    assert!(Specification::new(2, vec![pref1]).is_none());
}
