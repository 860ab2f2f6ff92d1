use tech_tree::technology::{Prerequisites, Technology};
use tech_tree::tree::TechnologyTree;

fn ids(v: &[&str]) -> Vec<String> {
    v.iter().map(|s| s.to_string()).collect()
}

fn tech(id: &str, prerequisites: Prerequisites, cost: u32) -> Technology {
    Technology {
        id: id.to_string(),
        name: id.to_uppercase(),
        description: format!("About {}.", id),
        prerequisites,
        cost,
    }
}

#[test]
fn test_add_technology() {
    let mut tech_tree = TechnologyTree::new();
    let tech = Technology {
        id: "pottery".to_string(),
        name: "Pottery".to_string(),
        description: "Basic pottery techniques.".to_string(),
        prerequisites: Prerequisites::And(Vec::new()),
        cost: 5,
    };

    tech_tree.add_technology(tech.clone());

    assert!(tech_tree.contains_technology(&tech.id));
}

#[test]
fn test_is_unlockable() {
    let mut tech_tree = TechnologyTree::new();
    let mut unlocked = Vec::new();
    unlocked.push("pottery".to_string());

    let tech = Technology {
        id: "writing".to_string(),
        name: "Writing".to_string(),
        description: "Basics of writing.".to_string(),
        prerequisites: Prerequisites::And(unlocked.clone()),
        cost: 10,
    };

    tech_tree.add_technology(tech.clone());

    assert!(tech_tree.is_unlockable(&tech.id, &unlocked, 15));
}

#[test]
fn test_remove_technology() {
    let mut tech_tree = TechnologyTree::new();
    let tech_id = "pottery".to_string();
    let tech = Technology {
        id: tech_id.clone(),
        name: "Pottery".to_string(),
        description: "Basic pottery techniques.".to_string(),
        prerequisites: Prerequisites::And(Vec::new()),
        cost: 5,
    };
    tech_tree.add_technology(tech);

    assert!(tech_tree.remove_technology(&tech_id).is_ok());
    assert!(!tech_tree.contains_technology(&tech_id));
}

#[test]
fn test_remove_technology_with_dependency() {
    let mut tech_tree = TechnologyTree::new();
    let mut prereq = Vec::new();
    prereq.push("pottery".to_string());

    let tech1 = Technology {
        id: "pottery".to_string(),
        name: "Pottery".to_string(),
        description: "Basic pottery techniques.".to_string(),
        prerequisites: Prerequisites::And(Vec::new()),
        cost: 5,
    };

    let tech2 = Technology {
        id: "irrigation".to_string(),
        name: "Irrigation".to_string(),
        description: "Advanced irrigation techniques.".to_string(),
        prerequisites: Prerequisites::And(prereq.clone()),
        cost: 10,
    };

    tech_tree.add_technology(tech1);
    tech_tree.add_technology(tech2);

    assert!(tech_tree.remove_technology("pottery").is_err());
}

#[test]
fn test_unlock_technology() {
    let mut tech_tree = TechnologyTree::new();
    let mut unlocked = Vec::new();
    unlocked.push("pottery".to_string());

    let tech = Technology {
        id: "writing".to_string(),
        name: "Writing".to_string(),
        description: "Basics of writing.".to_string(),
        prerequisites: Prerequisites::And(unlocked.clone()),
        cost: 10,
    };

    tech_tree.add_technology(tech.clone());

    assert!(tech_tree.unlock_technology(&tech.id, &mut unlocked, 15));
}

fn pottery_writing() -> TechnologyTree {
    let mut t = TechnologyTree::new();
    t.add_technology(tech("pottery", Prerequisites::And(Vec::new()), 5));
    t.add_technology(tech("writing", Prerequisites::And(ids(&["pottery"])), 10));
    t
}

#[test]
fn pottery_then_writing_scenario() {
    let t = pottery_writing();
    let mut unlocked: Vec<String> = Vec::new();
    assert!(t.is_unlockable("pottery", &unlocked, 15));
    assert!(!t.is_unlockable("writing", &unlocked, 15));
    assert!(t.unlock_technology("pottery", &mut unlocked, 15));
    assert_eq!(unlocked, ids(&["pottery"]));
    assert!(t.is_unlockable("writing", &unlocked, 15));
    assert_eq!(t.get_technology_path("writing", &unlocked, 15), Some(ids(&["pottery"])));
}

#[test]
fn conjunctive_needs_all_and_points() {
    let mut t = TechnologyTree::new();
    t.add_technology(tech("bronze", Prerequisites::And(ids(&["mining", "fire"])), 20));
    assert!(!t.is_unlockable("bronze", &ids(&["mining"]), 100));
    assert!(t.is_unlockable("bronze", &ids(&["fire", "mining"]), 20));
    assert!(!t.is_unlockable("bronze", &ids(&["fire", "mining"]), 19));
}

#[test]
fn disjunctive_needs_one_and_empty_never() {
    let mut t = TechnologyTree::new();
    t.add_technology(tech("sail", Prerequisites::Or(ids(&["boats", "wind"])), 3));
    t.add_technology(tech("void", Prerequisites::Or(Vec::new()), 0));
    assert!(t.is_unlockable("sail", &ids(&["wind"]), 3));
    assert!(!t.is_unlockable("sail", &ids(&["fire"]), 3));
    assert!(!t.is_unlockable("sail", &ids(&["wind"]), 2));
    assert!(!t.is_unlockable("void", &ids(&["wind"]), 100));
    assert!(!t.is_unlockable("void", &Vec::new(), 100));
}

#[test]
fn unknown_technology_is_not_unlockable() {
    let t = pottery_writing();
    assert!(!t.is_unlockable("magic", &ids(&["pottery"]), 100));
    let mut unlocked = ids(&["pottery"]);
    assert!(!t.unlock_technology("magic", &mut unlocked, 100));
    assert_eq!(unlocked, ids(&["pottery"]));
}

#[test]
fn unlock_twice_keeps_one_entry() {
    let t = pottery_writing();
    let mut unlocked: Vec<String> = Vec::new();
    assert!(t.unlock_technology("pottery", &mut unlocked, 5));
    assert!(t.unlock_technology("pottery", &mut unlocked, 5));
    assert_eq!(unlocked, ids(&["pottery"]));
    assert!(!t.unlock_technology("writing", &mut unlocked, 9));
    assert_eq!(unlocked, ids(&["pottery"]));
}

#[test]
fn add_replaces_record_of_same_id() {
    let mut t = pottery_writing();
    t.add_technology(tech("pottery", Prerequisites::Or(ids(&["clay"])), 7));
    assert_eq!(t.all_ids(), ids(&["pottery", "writing"]));
    let p = t.get_technology("pottery").unwrap();
    assert_eq!(p.cost, 7);
    assert!(t.get_technology("clay").is_none());
}

#[test]
fn remove_reports_the_dependent() {
    let mut t = pottery_writing();
    let e = t.remove_technology("pottery").unwrap_err();
    assert_eq!(e, "Technology pottery is a prerequisite for writing");
    assert!(t.contains_technology("pottery"));
    assert!(t.remove_technology("writing").is_ok());
    assert!(t.remove_technology("pottery").is_ok());
    assert!(t.all_ids().is_empty());
    assert!(t.remove_technology("absent").is_ok());
}

#[test]
fn remove_ignores_self_reference() {
    let mut t = TechnologyTree::new();
    t.add_technology(tech("loop", Prerequisites::Or(ids(&["loop"])), 1));
    assert!(t.remove_technology("loop").is_ok());
    assert!(!t.contains_technology("loop"));
}

#[test]
fn unlockable_list_in_registry_order() {
    let mut t = pottery_writing();
    t.add_technology(tech("fire", Prerequisites::And(Vec::new()), 1));
    t.add_technology(tech("sail", Prerequisites::Or(ids(&["pottery"])), 50));
    let unlocked = ids(&["pottery"]);
    assert_eq!(t.get_unlockable_technologies(&unlocked, 15), ids(&["pottery", "writing", "fire"]));
    assert_eq!(t.get_unlockable_technologies(&Vec::new(), 0), Vec::<String>::new());
}

#[test]
fn path_absent_without_seeds_or_eligibility() {
    let t = pottery_writing();
    assert_eq!(t.get_technology_path("pottery", &Vec::new(), 100), None);
    assert_eq!(t.get_technology_path("writing", &ids(&["fire"]), 100), None);
    assert_eq!(t.get_technology_path("writing", &ids(&["pottery"]), 9), None);
}

#[test]
fn path_to_unlocked_target_is_empty() {
    let t = pottery_writing();
    assert_eq!(t.get_technology_path("pottery", &ids(&["pottery"]), 0), Some(Vec::new()));
}

#[test]
fn path_runs_through_cheaper_technologies() {
    let mut t = TechnologyTree::new();
    t.add_technology(tech("a", Prerequisites::And(Vec::new()), 0));
    t.add_technology(tech("goal", Prerequisites::And(Vec::new()), 5));
    let p = t.get_technology_path("goal", &ids(&["s"]), 10).unwrap();
    assert_eq!(p, ids(&["s", "a"]));
}

#[test]
fn serialize_writes_records() {
    let t = pottery_writing();
    assert_eq!(
        t.serialize(),
        "pottery;POTTERY;About pottery.;And:;5\nwriting;WRITING;About writing.;And:pottery;10"
    );
    let mut t2 = TechnologyTree::new();
    t2.add_technology(tech("x", Prerequisites::Or(ids(&["a", "b"])), 4294967295));
    assert_eq!(t2.serialize(), "x;X;About x.;Or:a,b;4294967295");
    assert_eq!(TechnologyTree::new().serialize(), "");
}

#[test]
fn deserialize_reads_records() {
    let t = TechnologyTree::deserialize("a;A;first;Or:x,,y,;12\r\nb;B;second;And:;+7\n");
    assert_eq!(t.all_ids(), ids(&["a", "b"]));
    let a = t.get_technology("a").unwrap();
    assert_eq!(a.name, "A");
    assert_eq!(a.description, "first");
    assert_eq!(a.cost, 12);
    match &a.prerequisites {
        Prerequisites::Or(v) => assert_eq!(v, &ids(&["x", "y"])),
        _ => panic!("expected a disjunctive condition"),
    }
    let b = t.get_technology("b").unwrap();
    assert_eq!(b.cost, 7);
    match &b.prerequisites {
        Prerequisites::And(v) => assert!(v.is_empty()),
        _ => panic!("expected a conjunctive condition"),
    }
}

#[test]
fn deserialize_skips_malformed_lines() {
    let data = "short;line\nk;K;bad kind;Xor:a;1\nn;N;no colon;And;1\ng;G;good;And:;oops\nh;H;big;And:;4294967296\nz;Z;neg;Or:q;-3";
    let t = TechnologyTree::deserialize(data);
    assert_eq!(t.all_ids(), ids(&["g", "h", "z"]));
    assert_eq!(t.get_technology("g").unwrap().cost, 0);
    assert_eq!(t.get_technology("h").unwrap().cost, 0);
    assert_eq!(t.get_technology("z").unwrap().cost, 0);
}

#[test]
fn deserialize_later_line_replaces_earlier() {
    let t = TechnologyTree::deserialize("a;One;d;And:;1\na;Two;d;And:;2");
    assert_eq!(t.all_ids(), ids(&["a"]));
    assert_eq!(t.get_technology("a").unwrap().name, "Two");
    assert!(TechnologyTree::deserialize("").all_ids().is_empty());
}

#[test]
fn round_trip_keeps_records() {
    let mut t = pottery_writing();
    t.add_technology(tech("sail", Prerequisites::Or(ids(&["pottery", "wind"])), 0));
    let back = TechnologyTree::deserialize(&t.serialize());
    assert_eq!(back.all_ids(), t.all_ids());
    for id in t.all_ids() {
        let a = t.get_technology(&id).unwrap();
        let b = back.get_technology(&id).unwrap();
        assert_eq!(a.name, b.name);
        assert_eq!(a.description, b.description);
        assert_eq!(a.cost, b.cost);
        match (&a.prerequisites, &b.prerequisites) {
            (Prerequisites::And(x), Prerequisites::And(y)) => assert_eq!(x, y),
            (Prerequisites::Or(x), Prerequisites::Or(y)) => assert_eq!(x, y),
            _ => panic!("kinds differ"),
        }
    }
}

#[test]
fn outline_lists_children_under_parents() {
    let t = pottery_writing();
    let mut unlocked: Vec<String> = Vec::new();
    assert_eq!(
        t.tech_tree_lines(&mut unlocked, 0),
        vec!["- POTTERY (Cost: 5)".to_string(), "    - WRITING (Cost: 10)".to_string()]
    );
    assert!(unlocked.is_empty());
    assert_eq!(
        t.tech_tree_lines(&mut unlocked, 2),
        vec!["  - POTTERY (Cost: 5)".to_string(), "      - WRITING (Cost: 10)".to_string()]
    );
}

#[test]
fn outline_of_a_cycle_is_bounded() {
    let mut t = TechnologyTree::new();
    t.add_technology(tech("a", Prerequisites::Or(ids(&["b"])), 1));
    t.add_technology(tech("b", Prerequisites::Or(ids(&["a"])), 2));
    let mut unlocked = ids(&["a"]);
    let lines = t.tech_tree_lines(&mut unlocked, 0);
    assert_eq!(
        lines,
        vec![
            "- B (Cost: 2)".to_string(),
            "    - A (Cost: 1)".to_string(),
            "        - B (Cost: 2)".to_string(),
        ]
    );
    assert_eq!(unlocked, ids(&["a"]));
}

#[test]
fn path_visits_cheaper_technologies_in_rising_cost() {
    let mut t = TechnologyTree::new();
    t.add_technology(tech("a", Prerequisites::And(Vec::new()), 1));
    t.add_technology(tech("b", Prerequisites::And(Vec::new()), 2));
    t.add_technology(tech("t", Prerequisites::And(Vec::new()), 3));
    assert_eq!(t.get_technology_path("t", &ids(&["s"]), 10), Some(ids(&["s", "a", "b"])));
}

#[test]
fn serialize_writes_disjunctive_record() {
    let mut t = TechnologyTree::new();
    t.add_technology(Technology {
        id: "wheel".to_string(),
        name: "Wheel".to_string(),
        description: "The wheel.".to_string(),
        prerequisites: Prerequisites::Or(ids(&["pottery"])),
        cost: 8,
    });
    assert_eq!(t.serialize(), "wheel;Wheel;The wheel.;Or:pottery;8");
}

#[test]
fn deserialize_lists_each_prerequisite_once() {
    let t = TechnologyTree::deserialize("c;C;d;And:a,a,b,a;3");
    match &t.get_technology("c").unwrap().prerequisites {
        Prerequisites::And(v) => assert_eq!(v, &ids(&["a", "b"])),
        _ => panic!("expected a conjunctive condition"),
    }
    assert_eq!(t.serialize(), "c;C;d;And:a,b;3");
}

#[test]
fn outline_skips_unregistered_and_keeps_unlocked() {
    let mut t = TechnologyTree::new();
    t.add_technology(tech("fire", Prerequisites::Or(Vec::new()), 1));
    t.add_technology(tech("smoke", Prerequisites::And(ids(&["fire", "wood"])), 2));
    let mut unlocked = ids(&["wood", "ghost"]);
    assert_eq!(
        t.tech_tree_lines(&mut unlocked, 0),
        vec!["- FIRE (Cost: 1)".to_string(), "    - SMOKE (Cost: 2)".to_string()]
    );
    assert_eq!(unlocked, ids(&["wood", "ghost"]));
}
