use chronogrog::calendar::{parse_start, start_label};
use chronogrog::duration::parse_duration;
use chronogrog::phases::{PhaseInstance, PhaseInstanceSpec, ProductionPhaseTemplate};
use chronogrog::recipes::RecipeSpec;
use chronogrog::resources::{Resource, ResourceTracker, ResourceType};
use chronogrog::schedule::{build_phases, link_dependencies, schedule_phase};
use chronogrog::{ProductionSchedule, ProductionTimeline, ScheduleError};

const JAN_1_2020: i64 = 1577836800;
const HOUR: i64 = 3600;
const DAY: i64 = 86400;

fn template(id: &str, description: &str, kinds: Vec<ResourceType>, duration: &str) -> ProductionPhaseTemplate {
    ProductionPhaseTemplate {
        description: description.to_string(),
        id: id.to_string(),
        order: 0,
        resources_needed: kinds,
        color_hex: String::new(),
        default_duration: duration.to_string(),
    }
}

fn resource(id: usize, name: &str, kind: ResourceType) -> Resource {
    Resource { id, name: name.to_string(), resource_type: kind, capacity_str: String::new() }
}

fn phase(template: &str, description: &str, duration: &str) -> PhaseInstanceSpec {
    PhaseInstanceSpec {
        description: description.to_string(),
        template: template.to_string(),
        duration_string: duration.to_string(),
    }
}

fn recipe(name: &str, start: Option<&str>, phases: Vec<PhaseInstanceSpec>) -> RecipeSpec {
    RecipeSpec {
        name: name.to_string(),
        color_hex: "#00ff00".to_string(),
        start_string: start.map(|s| s.to_string()),
        phase_specs: phases,
    }
}

fn schedule(
    templates: Vec<ProductionPhaseTemplate>,
    resources: Vec<Resource>,
    recipes: Vec<RecipeSpec>,
) -> (ProductionSchedule, Result<(), ScheduleError>) {
    let timeline = ProductionTimeline { configuration: "calendar".to_string(), start: "2020-01-01".to_string() };
    let mut ps = ProductionSchedule::new("plan".to_string(), 1, timeline, templates, resources, recipes);
    let r = ps.init();
    (ps, r)
}

fn phases_of(ps: &ProductionSchedule, k: usize) -> &Vec<PhaseInstance> {
    &ps.get_recipe_iterator()[k].phases
}

#[test]
fn two_kettle_phases_with_one_kettle_run_one_after_the_other() {
    let templates = vec![template("boil", "Boil", vec![ResourceType::from_name("kettle")], "1 day")];
    let resources = vec![resource(1, "Kettle", ResourceType::Kettle)];
    let recipes = vec![recipe("r", Some("2020-01-01"), vec![phase("boil", "", "1 day"), phase("boil", "", "1 day")])];
    let (ps, r) = schedule(templates, resources, recipes);
    assert!(r.is_ok());
    let phases = phases_of(&ps, 0);
    assert_eq!(JAN_1_2020, phases[0].start_date);
    assert_eq!(JAN_1_2020 + DAY, phases[1].start_date);
    assert_eq!(vec![phases[1].id], phases[0].dependencies);
    assert!(phases[1].dependencies.is_empty());
    assert_eq!("Kettle", phases[0].resources_used[0].name);
    assert_eq!("Kettle", phases[1].resources_used[0].name);
    assert_eq!(Some("2020-01-02".to_string()), start_label(phases[1].start_date));
}

#[test]
fn empty_duration_override_takes_the_ten_day_default() {
    let templates = vec![template("primary", "Primary", vec![], "10 days")];
    let recipes = vec![recipe("r", None, vec![phase("primary", "", "")])];
    let (ps, r) = schedule(templates, vec![], recipes);
    assert!(r.is_ok());
    assert_eq!(10 * DAY, phases_of(&ps, 0)[0].duration);
}

#[test]
fn unreadable_default_duration_gives_one_day() {
    let templates = vec![template("t", "T", vec![], "a while")];
    let recipes = vec![recipe("r", None, vec![phase("t", "", "")])];
    let (ps, r) = schedule(templates, vec![], recipes);
    assert!(r.is_ok());
    assert_eq!(DAY, phases_of(&ps, 0)[0].duration);
}

#[test]
fn unreadable_override_falls_back_to_the_default() {
    let templates = vec![template("t", "T", vec![], "2 hours")];
    let recipes = vec![recipe("r", None, vec![phase("t", "", "soon"), phase("t", "", "3 weeks")])];
    let (ps, r) = schedule(templates, vec![], recipes);
    assert!(r.is_ok());
    assert_eq!(2 * HOUR, phases_of(&ps, 0)[0].duration);
    assert_eq!(21 * DAY, phases_of(&ps, 0)[1].duration);
}

#[test]
fn description_is_inherited_unless_given() {
    let templates = vec![template("t", "Template text", vec![], "1 day")];
    let recipes = vec![recipe("r", None, vec![phase("t", "", ""), phase("t", "Own text", "")])];
    let (ps, r) = schedule(templates, vec![], recipes);
    assert!(r.is_ok());
    assert_eq!("Template text", phases_of(&ps, 0)[0].description);
    assert_eq!("Own text", phases_of(&ps, 0)[1].description);
    assert_eq!("#00ff00", phases_of(&ps, 0)[1].color_hex);
}

#[test]
fn uncontended_phases_run_back_to_back_and_chain() {
    let templates = vec![template("a", "A", vec![], "1 hour"), template("b", "B", vec![], "2 days")];
    let recipes = vec![recipe(
        "r",
        Some("2020-01-01 05:00:00"),
        vec![phase("a", "", ""), phase("b", "", ""), phase("a", "", "3 hours")],
    )];
    let (ps, r) = schedule(templates, vec![], recipes);
    assert!(r.is_ok());
    let start = JAN_1_2020 + 5 * HOUR;
    let phases = phases_of(&ps, 0);
    assert_eq!(start, phases[0].start_date);
    assert_eq!(start + HOUR, phases[1].start_date);
    assert_eq!(start + HOUR + 2 * DAY, phases[2].start_date);
    let recipe_id = ps.get_recipe_iterator()[0].id;
    assert_eq!(1, recipe_id);
    assert_eq!(vec![2, 3, 4], phases.iter().map(|p| p.id).collect::<Vec<usize>>());
    assert_eq!(vec![3], phases[0].dependencies);
    assert_eq!(vec![4], phases[1].dependencies);
    assert!(phases[2].dependencies.is_empty());
    assert_eq!(Some("2020-01-01 05".to_string()), start_label(phases[0].start_date));
}

#[test]
fn a_shared_fermentor_pushes_the_second_recipe_back() {
    let templates = vec![template("ferment", "Ferment", vec![ResourceType::Fermentor], "10 days")];
    let resources = vec![resource(7, "Only Fermentor", ResourceType::Fermentor)];
    let recipes = vec![
        recipe("first", None, vec![phase("ferment", "", "")]),
        recipe("second", None, vec![phase("ferment", "", "")]),
    ];
    let (ps, r) = schedule(templates, resources, recipes);
    assert!(r.is_ok());
    let first = &phases_of(&ps, 0)[0];
    let second = &phases_of(&ps, 1)[0];
    assert_eq!(JAN_1_2020, first.start_date);
    assert_eq!(JAN_1_2020 + 10 * DAY, second.start_date);
    assert!(second.start_date >= first.start_date + first.duration);
    assert_eq!(3, ps.get_recipe_iterator()[1].id);
    assert_eq!(4, second.id);
}

#[test]
fn a_free_second_instance_needs_no_push() {
    let templates = vec![template("ferment", "Ferment", vec![ResourceType::Fermentor], "10 days")];
    let resources = vec![resource(1, "F1", ResourceType::Fermentor), resource(2, "F2", ResourceType::Fermentor)];
    let recipes = vec![
        recipe("first", None, vec![phase("ferment", "", "")]),
        recipe("second", None, vec![phase("ferment", "", "")]),
    ];
    let (ps, r) = schedule(templates, resources, recipes);
    assert!(r.is_ok());
    assert_eq!(JAN_1_2020, phases_of(&ps, 1)[0].start_date);
    assert_eq!("F2", phases_of(&ps, 1)[0].resources_used[0].name);
}

#[test]
fn a_missing_kind_aborts_the_run() {
    let templates = vec![template("ferment", "Ferment", vec![ResourceType::Fermentor], "10 days")];
    let resources = vec![resource(1, "Kettle", ResourceType::Kettle)];
    let recipes = vec![recipe("r", None, vec![phase("ferment", "", "")])];
    let (_, r) = schedule(templates, resources, recipes);
    match r {
        Err(ScheduleError::NoResourceOfKind(kind, description)) => {
            assert_eq!(ResourceType::Fermentor, kind);
            assert_eq!("Ferment", description);
        },
        _ => panic!("expected a missing kind"),
    }
}

#[test]
fn an_unknown_template_aborts_the_run() {
    let templates = vec![template("a", "A", vec![], "1 day")];
    let recipes = vec![recipe("r", None, vec![phase("a", "", ""), phase("nope", "", "")])];
    let (_, r) = schedule(templates, vec![], recipes);
    match r {
        Err(ScheduleError::UnknownTemplate(id)) => assert_eq!("nope", id),
        _ => panic!("expected an unknown template"),
    }
}

#[test]
fn duplicate_resource_ids_are_refused() {
    let resources = vec![resource(4, "A", ResourceType::Keg), resource(4, "B", ResourceType::Kettle)];
    let (_, r) = schedule(vec![], resources, vec![]);
    assert!(matches!(r, Err(ScheduleError::DuplicateResourceId(4))));
}

#[test]
fn an_unreadable_start_is_refused() {
    let templates = vec![template("a", "A", vec![], "1 day")];
    let timeline = ProductionTimeline { configuration: "calendar".to_string(), start: "someday".to_string() };
    let recipes = vec![recipe("r", Some("later"), vec![phase("a", "", "")])];
    let mut ps = ProductionSchedule::new("plan".to_string(), 1, timeline, templates, vec![], recipes);
    match ps.init() {
        Err(ScheduleError::UnreadableStartDate(name)) => assert_eq!("r", name),
        _ => panic!("expected an unreadable start"),
    }
}

#[test]
fn a_start_beyond_the_range_is_refused() {
    let templates = vec![template("a", "A", vec![], "1 day")];
    let recipes = vec![recipe("r", None, vec![phase("a", "", "15250284452471 weeks")])];
    let (_, r) = schedule(templates, vec![], recipes);
    assert!(matches!(r, Err(ScheduleError::OutOfRange)));
}

#[test]
fn two_of_one_kind_with_one_instance_fails_to_allocate() {
    let templates = vec![template("double", "Double boil", vec![ResourceType::Kettle, ResourceType::Kettle], "1 day")];
    let resources = vec![resource(1, "Kettle", ResourceType::Kettle)];
    let recipes = vec![recipe("r", None, vec![phase("double", "", "")])];
    let (_, r) = schedule(templates, resources, recipes);
    assert!(matches!(r, Err(ScheduleError::AllocationFailed(ResourceType::Kettle, _))));
}

#[test]
fn kind_lookup_ignores_case_and_keeps_unknown_names() {
    assert_eq!(ResourceType::Kettle, ResourceType::from_name("KeTTle"));
    assert_eq!(ResourceType::MashTun, ResourceType::from_name("mashtun"));
    assert_eq!(ResourceType::Kegerator, ResourceType::from_name("Kegerator"));
    assert_eq!(ResourceType::Other("NitroGasTank".to_string()), ResourceType::from_name("NitroGasTank"));
    assert_eq!("NitroGasTank", ResourceType::from_name("NitroGasTank").name());
    assert_eq!("lautertun", ResourceType::LauterTun.name());
    assert_eq!(ResourceType::Keg, ResourceType::from_name(&ResourceType::Keg.name()));
    assert!(ResourceType::Fermentor != ResourceType::Other("fermentor".to_string()));
    assert_eq!(ResourceType::Kettle, ResourceType::from_name("\u{212A}ettle"));
    assert_eq!(ResourceType::LauterTun, ResourceType::from_name("LAUTERTUN"));
    assert_eq!(ResourceType::Keg, ResourceType::from("Keg".to_string()));
    assert_eq!(ResourceType::Other("Kettles".to_string()), ResourceType::from("Kettles".to_string()));
}

#[test]
fn durations_are_read_with_their_unit() {
    assert_eq!(Some(10 * DAY), parse_duration("10 days"));
    assert_eq!(Some(HOUR), parse_duration("1 hour"));
    assert_eq!(Some(28 * DAY), parse_duration("4 weeks"));
    assert_eq!(Some(3 * DAY), parse_duration("3d"));
    assert_eq!(Some(2 * HOUR), parse_duration("2 hours"));
    assert_eq!(None, parse_duration("2 Hours"));
    assert_eq!(Some(0), parse_duration("0h"));
    assert_eq!(None, parse_duration(""));
    assert_eq!(None, parse_duration("days"));
    assert_eq!(None, parse_duration("5 fortnights"));
    assert_eq!(None, parse_duration("5  days"));
    assert_eq!(None, parse_duration("99999999999999999999999 hours"));
}

#[test]
fn starts_are_read_as_date_and_time_or_date() {
    assert_eq!(Some(JAN_1_2020), parse_start("2020-01-01"));
    assert_eq!(Some(JAN_1_2020), parse_start("2020-01-01 00:00:00"));
    assert_eq!(Some(JAN_1_2020 + 5 * HOUR + 30 * 60), parse_start("2020-01-01 05:30:00"));
    assert_eq!(None, parse_start("January"));
    assert_eq!(Some("2020-01-01".to_string()), start_label(JAN_1_2020));
    assert_eq!(Some("2020-01-01 13".to_string()), start_label(JAN_1_2020 + 13 * HOUR));
}

#[test]
fn tracker_answers_and_reserves() {
    let mut t = ResourceTracker::new();
    assert_eq!(None, t.next_available_resource_date_for_type(&ResourceType::Keg, JAN_1_2020));
    t.track_resource(resource(1, "K1", ResourceType::Keg));
    t.track_resource(resource(2, "K2", ResourceType::Keg));
    assert!(t.is_tracked(2));
    assert!(!t.is_tracked(3));
    assert_eq!(Some(JAN_1_2020), t.next_available_resource_date_for_type(&ResourceType::Keg, JAN_1_2020));
    let a = t.allocate_resource_of_type_for_duration(&ResourceType::Keg, JAN_1_2020, 3 * DAY).unwrap();
    assert_eq!(1, a.id);
    let b = t.allocate_resource_of_type_for_duration(&ResourceType::Keg, JAN_1_2020, 2 * DAY).unwrap();
    assert_eq!(2, b.id);
    assert_eq!(Some(JAN_1_2020 + 2 * DAY), t.next_available_resource_date_for_type(&ResourceType::Keg, JAN_1_2020));
    assert_eq!(Some(JAN_1_2020 + 5 * DAY), t.next_available_resource_date_for_type(&ResourceType::Keg, JAN_1_2020 + 5 * DAY));
    assert!(t.allocate_resource_of_type_for_duration(&ResourceType::Keg, JAN_1_2020 + DAY, DAY).is_none());
    let c = t.allocate_resource_of_type_for_duration(&ResourceType::Keg, JAN_1_2020 + 2 * DAY, DAY).unwrap();
    assert_eq!(2, c.id);
}

#[test]
fn a_phase_start_is_pushed_by_each_kind_in_turn() {
    let mut t = ResourceTracker::new();
    t.track_resource(resource(1, "Kettle", ResourceType::Kettle));
    t.track_resource(resource(2, "Tun", ResourceType::MashTun));
    t.allocate_resource_of_type_for_duration(&ResourceType::Kettle, JAN_1_2020, DAY).unwrap();
    t.allocate_resource_of_type_for_duration(&ResourceType::MashTun, JAN_1_2020, 2 * DAY).unwrap();
    let kinds = vec![ResourceType::Kettle, ResourceType::MashTun];
    let (start, used) = schedule_phase(&mut t, &kinds, JAN_1_2020, HOUR, &"Brew".to_string()).unwrap();
    assert_eq!(JAN_1_2020 + 2 * DAY, start);
    assert_eq!(vec!["Kettle".to_string(), "Tun".to_string()], used.iter().map(|r| r.name.clone()).collect::<Vec<String>>());
}

#[test]
fn phases_are_built_with_ids_after_the_last_one() {
    let mut t = ResourceTracker::new();
    let mut last_id: usize = 10;
    let templates = vec![template("a", "A", vec![], "1 day")];
    let spec = recipe("r", None, vec![phase("a", "", ""), phase("a", "", "")]);
    let phases = build_phases(&mut t, &mut last_id, &templates, &spec, JAN_1_2020).unwrap();
    assert_eq!(12, last_id);
    assert_eq!(11, phases[0].id);
    assert_eq!(vec![12], phases[0].dependencies);
}

#[test]
fn dependencies_stay_sorted_and_unique() {
    let mut p = PhaseInstance::new(1, "d".to_string(), "c".to_string(), DAY, JAN_1_2020, vec![]);
    p.add_dependency(9);
    p.add_dependency(3);
    p.add_dependency(9);
    p.add_dependency(5);
    assert_eq!(vec![3, 5, 9], p.dependencies);
    let linked = link_dependencies(vec![
        PhaseInstance::new(4, "a".to_string(), "c".to_string(), DAY, JAN_1_2020, vec![]),
        PhaseInstance::new(5, "b".to_string(), "c".to_string(), DAY, JAN_1_2020 + DAY, vec![]),
    ]);
    assert_eq!(vec![5], linked[0].dependencies);
    assert!(linked[1].dependencies.is_empty());
}

#[test]
fn the_schedule_is_written_as_pla_text() {
    let templates = vec![template("boil", "Boil", vec![ResourceType::Kettle], "1 day")];
    let resources = vec![resource(1, "Kettle", ResourceType::Kettle)];
    let recipes = vec![recipe("Pale", Some("2020-01-01"), vec![phase("boil", "", ""), phase("boil", "Second boil", "5 hours")])];
    let (ps, r) = schedule(templates, resources, recipes);
    assert!(r.is_ok());
    let expected = [
        "  [1] Pale\n    start 2020-01-01\n    color #00ff00\n\n",
        "  [2] Boil\n    start 2020-01-01\n    color #00ff00\n    duration 24\n    res Kettle\n    dep 3\n\n",
        "  [3] Second boil\n    start 2020-01-02\n    color #00ff00\n    duration 5\n    res Kettle\n",
    ]
    .concat();
    assert_eq!(Some(expected), ps.get_string_in_pla_format());
}

#[test]
fn a_phase_block_lists_its_fields() {
    let mut p = PhaseInstance::new(
        12,
        "Mash".to_string(),
        "#123456".to_string(),
        90 * 60,
        JAN_1_2020 + 7 * HOUR,
        vec![resource(5, "Tun", ResourceType::MashTun)],
    );
    p.add_dependency(13);
    let expected = "[12] Mash\n  start 2020-01-01 07\n  color #123456\n  duration 1\n  res Tun\n    dep 13\n\n";
    assert_eq!(Some(expected.to_string()), p.get_string_in_pla_format(0));
}

#[test]
fn an_empty_schedule_writes_nothing() {
    let (ps, r) = schedule(vec![], vec![], vec![]);
    assert!(r.is_ok());
    assert_eq!(Some(String::new()), ps.get_string_in_pla_format());
}

#[test]
fn blocks_take_the_start_text_given() {
    let p = PhaseInstance::new(7, "Boil".to_string(), "#fff".to_string(), 2 * HOUR, JAN_1_2020, vec![]);
    assert_eq!("  [7] Boil\n    start day one\n    color #fff\n    duration 2\n\n", p.pla_block(1, "day one"));
}
