use chronogrog::phases::{PhaseInstanceSpec, ProductionPhaseTemplate};
use chronogrog::recipes::RecipeSpec;
use chronogrog::resources::{Resource, ResourceType};
use chronogrog::{ProductionSchedule, ProductionTimeline};

const JAN_1_2020: i64 = 1577836800;
const DAY: i64 = 86400;

fn template(id: &str, description: &str, order: usize, kinds: Vec<ResourceType>, duration: &str) -> ProductionPhaseTemplate {
    ProductionPhaseTemplate {
        description: description.to_string(),
        id: id.to_string(),
        order,
        resources_needed: kinds,
        color_hex: String::new(),
        default_duration: duration.to_string(),
    }
}

fn resource(id: usize, name: &str, kind: ResourceType) -> Resource {
    Resource { id, name: name.to_string(), resource_type: kind, capacity_str: "5 gal".to_string() }
}

fn phase(template: &str) -> PhaseInstanceSpec {
    PhaseInstanceSpec { description: String::new(), template: template.to_string(), duration_string: String::new() }
}

fn simple_schedule() -> ProductionSchedule {
    let templates = vec![
        template("planning", "Planning", 0, vec![], "1 hour"),
        template("brewing", "Brewing", 1, vec![ResourceType::Kettle, ResourceType::MashTun], "1 day"),
        template("primary", "Primary Fermentation", 2, vec![ResourceType::Fermentor], "10 days"),
        template("secondary", "Secondary Fermentation", 3, vec![ResourceType::Fermentor], "4 weeks"),
        template("kegging", "Kegging", 4, vec![ResourceType::Keg], "1 day"),
    ];
    let resources = vec![
        resource(1, "Fermentor One", ResourceType::Fermentor),
        resource(2, "Fermentor Two", ResourceType::Fermentor),
        resource(3, "Large Kettle", ResourceType::Kettle),
        resource(4, "Small Kettle", ResourceType::Kettle),
        resource(5, "Mash Tun", ResourceType::MashTun),
        resource(6, "Lauter Tun", ResourceType::LauterTun),
        resource(7, "Keg One", ResourceType::Keg),
        resource(8, "Keg Two", ResourceType::Keg),
        resource(9, "Kegerator", ResourceType::Kegerator),
    ];
    let recipes = vec![RecipeSpec {
        name: "Damned Squirrel Mk. II".to_string(),
        color_hex: "#ff0000".to_string(),
        start_string: None,
        phase_specs: vec![phase("planning"), phase("brewing"), phase("primary"), phase("secondary"), phase("kegging")],
    }];
    let timeline = ProductionTimeline { configuration: "calendar".to_string(), start: "2020-01-01".to_string() };
    let mut ps = ProductionSchedule::new("Simple Production Schedule".to_string(), 1, timeline, templates, resources, recipes);
    ps.init().unwrap();
    ps
}

#[test]
fn it_should_load_a_json_file_into_a_new_production_schedule() {
    let ps = simple_schedule();
    assert_eq!("Simple Production Schedule", ps.name);
    assert_eq!(1, ps.id);
    assert_eq!("calendar", ps.timeline.configuration);
    assert_eq!(Some(JAN_1_2020), ps.timeline.start_date());
    let damned_squirrel = ps.get_recipe_by_name(&"Damned Squirrel Mk. II".to_string()).unwrap();
    assert_eq!(JAN_1_2020, damned_squirrel.start_date);
}

#[test]
fn the_simple_production_schedule_file_should_have_three_phases() {
    let ps = simple_schedule();
    assert_eq!("Planning", ps.phase_templates[0].description);
    assert_eq!(Some(3600), ps.phase_templates[0].default_duration());
    assert_eq!("Primary Fermentation", ps.phase_templates[2].description);
    assert_eq!(Some(10 * DAY), ps.phase_templates[2].default_duration());
    assert_eq!("Secondary Fermentation", ps.phase_templates[3].description);
    assert_eq!(Some(28 * DAY), ps.phase_templates[3].default_duration());
    assert_eq!(Some(&ps.phase_templates[3]), ps.get_phase_by_id(&"secondary".to_string()));
}

#[test]
fn the_simple_production_schedule_should_include_six_resources() {
    let ps = simple_schedule();
    assert_eq!(9, ps.resources().len());
    let mut found = false;
    for next in &ps.resources() {
        if let ResourceType::Kettle = next.resource_type {
            found = true;
        }
    }
    assert!(found);
    match &ps.get_resource_by_id(1) {
        Some(x) => assert_eq!(ResourceType::Fermentor, x.resource_type),
        None => panic!("no resource with id 1"),
    }
}

#[test]
fn it_should_be_able_to_retrieve_recipes_by_name_and_id() {
    let ps = simple_schedule();
    let damned_squirrel = ps.get_recipe_by_name(&"Damned Squirrel Mk. II".to_string()).unwrap();
    assert_eq!(damned_squirrel.name, "Damned Squirrel Mk. II");
}

#[test]
fn it_should_be_able_to_retrieve_an_available_resource_by_type() {
    let ps = simple_schedule();
    let res = ps.get_available_resource_by_type(&ResourceType::Kettle).unwrap();
    assert_eq!("Large Kettle", res.name);
    let res2 = ps.get_available_resource_by_type(&ResourceType::Other("nitrogastank".to_string()));
    assert_eq!(None, res2);
}
