use carina::effect::Effect;
use carina::plan::{ModularPlan, ModuleSource, Plan};
use carina::resource::{Resource, ResourceId, State, Value};

#[test]
fn empty_plan() {
    let plan = Plan::new();
    assert!(plan.is_empty());
    assert_eq!(plan.mutation_count(), 0);
}

#[test]
fn plan_summary() {
    let mut plan = Plan::new();
    plan.add(Effect::Create(Resource::new("s3_bucket", "a")));
    plan.add(Effect::Create(Resource::new("s3_bucket", "b")));
    plan.add(Effect::Delete(ResourceId::new("s3_bucket", "c")));

    let summary = plan.summary();
    assert_eq!(summary.create, 2);
    assert_eq!(summary.delete, 1);
    assert_eq!(summary.text(), "Plan: 2 to create, 0 to update, 1 to delete");
}

#[test]
fn reads_do_not_count_as_mutations() {
    let mut plan = Plan::new();
    plan.add(Effect::Read { resource: Resource::new("vpc", "main") });
    plan.add(Effect::Delete(ResourceId::new("vpc", "old")));
    assert_eq!(plan.mutation_count(), 1);
    assert_eq!(plan.summary().read, 1);
    assert_eq!(plan.effects().len(), 2);
}

fn module_resource(resource_type: &str, name: &str, module: &str, instance: &str) -> Resource {
    let mut r = Resource::new(resource_type, name);
    r.attributes.insert("_module".to_string(), Value::String(module.to_string()));
    r.attributes.insert("_module_instance".to_string(), Value::String(instance.to_string()));
    r
}

#[test]
fn modular_plan_from_plan() {
    let mut plan = Plan::new();

    // Root resource
    plan.add(Effect::Create(Resource::new("vpc", "main")));

    // Module resource
    let mut module_resource = Resource::new("security_group", "web_sg");
    module_resource
        .attributes
        .insert("_module".to_string(), Value::String("web_tier".to_string()));
    module_resource.attributes.insert(
        "_module_instance".to_string(),
        Value::String("web".to_string()),
    );
    plan.add(Effect::Create(module_resource));

    let modular = ModularPlan::from_plan(plan);

    assert_eq!(modular.source_of(0), ModuleSource::Root);
    assert_eq!(
        modular.source_of(1),
        ModuleSource::Module {
            name: "web_tier".to_string(),
            instance: "web".to_string()
        }
    );
}

#[test]
fn modular_plan_group_by_module() {
    let mut plan = Plan::new();

    // Two root resources
    plan.add(Effect::Create(Resource::new("vpc", "main")));
    plan.add(Effect::Create(Resource::new("subnet", "public")));

    // Module resource
    let mut module_resource = Resource::new("security_group", "web_sg");
    module_resource
        .attributes
        .insert("_module".to_string(), Value::String("web_tier".to_string()));
    module_resource.attributes.insert(
        "_module_instance".to_string(),
        Value::String("web".to_string()),
    );
    plan.add(Effect::Create(module_resource));

    let modular = ModularPlan::from_plan(plan);
    let groups = modular.group_by_module();

    let root = groups.iter().find(|(s, _)| *s == ModuleSource::Root).unwrap();
    assert_eq!(root.1.len(), 2);
    let web = groups
        .iter()
        .find(|(s, _)| *s == ModuleSource::module("web_tier", "web"))
        .unwrap();
    assert_eq!(web.1.len(), 1);
}

#[test]
fn source_of_past_the_end_is_root() {
    let modular = ModularPlan::new();
    assert_eq!(modular.source_of(3), ModuleSource::Root);
}

#[test]
fn module_source_needs_both_names_as_strings() {
    let mut plan = Plan::new();
    let mut only_module = Resource::new("vpc", "a");
    only_module.attributes.insert("_module".to_string(), Value::String("m".to_string()));
    plan.add(Effect::Create(only_module));
    let mut numeric = Resource::new("vpc", "b");
    numeric.attributes.insert("_module".to_string(), Value::String("m".to_string()));
    numeric.attributes.insert("_module_instance".to_string(), Value::Int(1));
    plan.add(Effect::Create(numeric));
    plan.add(Effect::Delete(ResourceId::new("vpc", "c")));
    let id = ResourceId::new("vpc", "d");
    plan.add(Effect::Update {
        id: id.clone(),
        from: State::not_found(id),
        to: module_resource("vpc", "d", "net", "prod"),
    });
    let modular = ModularPlan::from_plan(plan);
    assert_eq!(modular.source_of(0), ModuleSource::Root);
    assert_eq!(modular.source_of(1), ModuleSource::Root);
    assert_eq!(modular.source_of(2), ModuleSource::Root);
    assert_eq!(modular.source_of(3), ModuleSource::module("net", "prod"));
}

#[test]
fn display_by_module_orders_modules_by_name_then_instance() {
    let mut plan = Plan::new();
    plan.add(Effect::Create(module_resource("subnet", "b", "web_tier", "web2")));
    plan.add(Effect::Create(Resource::new("vpc", "main")));
    plan.add(Effect::Create(module_resource("subnet", "a", "app_tier", "app")));
    plan.add(Effect::Create(module_resource("security_group", "sg", "web_tier", "web")));
    plan.add(Effect::Delete(ResourceId::new("vpc", "old")));
    let modular = ModularPlan::from_plan(plan);
    assert_eq!(
        modular.display_by_module(),
        "Root:\n  + vpc.main\n  - vpc.old\n\n\
         Module: app_tier (instance: app)\n  + subnet.a\n\n\
         Module: web_tier (instance: web)\n  + security_group.sg\n\n\
         Module: web_tier (instance: web2)\n  + subnet.b\n\n\
         Summary: 4 to create, 0 to update, 1 to delete\n"
    );
}

#[test]
fn display_by_module_without_root_effects() {
    let mut plan = Plan::new();
    plan.add(Effect::Create(module_resource("subnet", "a", "net", "main")));
    let modular = ModularPlan::from_plan(plan);
    assert_eq!(
        modular.display_by_module(),
        "Module: net (instance: main)\n  + subnet.a\n\nSummary: 1 to create, 0 to update, 0 to delete\n"
    );
}
