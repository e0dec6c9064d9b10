use carina::lsp::completion::{CompletionContext, CompletionKind, CompletionProvider};
use carina::schema::AttributeType;

fn labels(items: &[carina::lsp::completion::Completion]) -> Vec<String> {
    items.iter().map(|c| c.label.clone()).collect()
}

#[test]
fn top_level_offers_keywords_and_resource_types() {
    let p = CompletionProvider::new();
    let items = p.top_level_completions();
    assert_eq!(
        labels(&items),
        vec![
            "provider",
            "let",
            "input",
            "output",
            "import",
            "ref",
            "aws.s3.bucket",
            "aws.vpc",
            "aws.subnet",
            "aws.internet_gateway",
            "aws.route_table",
            "aws.route",
            "aws.security_group",
            "aws.security_group.ingress_rule",
            "aws.security_group.egress_rule",
        ]
    );
    assert_eq!(
        items[0].insert_text.as_deref(),
        Some("provider ${1:aws} {\n    region = aws.Region.${2:ap_northeast_1}\n}")
    );
    assert!(items[0].snippet);
    assert_eq!(items[0].kind, CompletionKind::Keyword);
    assert_eq!(items[5].kind, CompletionKind::TypeParameter);
    assert_eq!(items[6].kind, CompletionKind::Class);
    assert_eq!(items[1].detail.as_deref(), Some("Define a named resource or variable"));
}

#[test]
fn context_after_equals_in_a_block() {
    let p = CompletionProvider::new();
    match p.get_completion_context("aws.vpc {\n    name = ", 1, 11) {
        CompletionContext::AfterEquals { resource_type, attr_name } => {
            assert_eq!(resource_type, "vpc");
            assert_eq!(attr_name, "name");
        }
        other => panic!("unexpected context {:?}", other),
    }
}

#[test]
fn context_inside_block_and_top_level() {
    let p = CompletionProvider::new();
    match p.get_completion_context("aws.vpc {\n    ", 1, 4) {
        CompletionContext::InsideResourceBlock { resource_type } => assert_eq!(resource_type, "vpc"),
        other => panic!("unexpected context {:?}", other),
    }
    assert!(matches!(
        p.get_completion_context("aws.vpc {\n}\n", 1, 1),
        CompletionContext::TopLevel
    ));
    assert!(matches!(p.get_completion_context("", 0, 0), CompletionContext::TopLevel));
    assert!(matches!(
        p.get_completion_context("    region = aws.Region.", 0, 24),
        CompletionContext::AfterAwsRegion
    ));
    assert!(matches!(
        p.get_completion_context("    vpc = ref(", 0, 14),
        CompletionContext::AfterRefType
    ));
    assert!(matches!(
        p.get_completion_context("    cidr = input.", 0, 17),
        CompletionContext::AfterInputDot
    ));
}

#[test]
fn module_call_context_and_import_path() {
    let p = CompletionProvider::new();
    let text = "import \"./modules/net.crn\" as net\nnet {\n  ";
    match p.get_completion_context(text, 2, 2) {
        CompletionContext::InsideModuleCall { module_name } => assert_eq!(module_name, "net"),
        other => panic!("unexpected context {:?}", other),
    }
    assert_eq!(p.find_module_import_path("net", text), Some("./modules/net.crn".to_string()));
    assert_eq!(p.find_module_import_path("other", text), None);
    assert_eq!(p.module_import_at(text, 2, 2), Some("./modules/net.crn".to_string()));
    // without the parsed module there is nothing to offer
    assert!(p.complete(text, 2, 2, None).is_empty());
}

#[test]
fn id_attributes_offer_binding_references() {
    let p = CompletionProvider::new();
    let text = "let main_vpc = aws.vpc {\n}\naws.subnet {\n    vpc_id = ";
    let items = p.complete(text, 3, 13, None);
    assert_eq!(labels(&items), vec!["main_vpc.id", "env"]);
    assert_eq!(items[0].kind, CompletionKind::Reference);
    assert_eq!(items[0].detail.as_deref(), Some("Reference to main_vpc's ID"));
    assert_eq!(items[0].insert_text.as_deref(), Some("main_vpc.id"));
}

#[test]
fn input_parameters_are_extracted() {
    let p = CompletionProvider::new();
    let text = "input {\n  cidr: string = \"10.0.0.0/16\"\n  name: string\n}\n";
    assert_eq!(
        p.extract_input_parameters(text),
        vec![
            ("cidr".to_string(), "string".to_string()),
            ("name".to_string(), "string".to_string())
        ]
    );
    let items = p.input_parameter_completions(text);
    assert_eq!(labels(&items), vec!["cidr", "name"]);
    assert_eq!(items[0].detail.as_deref(), Some("string (required)"));
    assert_eq!(items[0].kind, CompletionKind::Field);
    let values = p.value_completions_for_attr("unknown", "x", text);
    assert_eq!(values[0].label, "input");
    assert_eq!(values[0].insert_text.as_deref(), Some("input."));
    assert!(values[0].trigger_suggest);
    assert_eq!(values[1].label, "input.cidr");
    assert_eq!(values[2].label, "input.name");
    assert_eq!(values[3].label, "true");
}

#[test]
fn bindings_are_extracted() {
    let p = CompletionProvider::new();
    let text = "let a = aws.vpc {\n}\n  let b_2 = 1\nlet bad-name = 2\nlet = 3\n";
    assert_eq!(p.extract_resource_bindings(text), vec!["a".to_string(), "b_2".to_string()]);
}

#[test]
fn values_by_type() {
    let p = CompletionProvider::new();
    let zones = p.completions_for_type(&AttributeType::Enum(vec![
        "us_east_1a".to_string(),
        "zz".to_string(),
    ]));
    assert_eq!(labels(&zones), vec!["aws.AvailabilityZone.us_east_1a", "aws.AvailabilityZone.zz"]);
    assert_eq!(zones[0].detail.as_deref(), Some("N. Virginia Zone a"));
    assert_eq!(zones[1].detail.as_deref(), Some("Zone z"));

    let protocols = p.completions_for_type(&AttributeType::Enum(vec!["tcp".to_string()]));
    assert_eq!(
        labels(&protocols),
        vec!["aws.Protocol.tcp", "aws.Protocol.udp", "aws.Protocol.icmp", "aws.Protocol.all"]
    );

    let regions = p.completions_for_type(&AttributeType::Enum(vec!["eu_east_1".to_string()]));
    assert_eq!(regions.len(), 17);
    assert_eq!(regions[0].label, "aws.Region.ap_northeast_1");
    assert_eq!(regions[0].detail.as_deref(), Some("Tokyo"));

    let plain = p.completions_for_type(&AttributeType::Enum(vec!["a".to_string(), "b".to_string()]));
    assert_eq!(labels(&plain), vec!["a", "b"]);
    assert_eq!(plain[0].kind, CompletionKind::EnumMember);

    assert!(p.completions_for_type(&AttributeType::Int).is_empty());
    assert_eq!(labels(&p.completions_for_type(&AttributeType::Bool)), vec!["true", "false"]);
    assert_eq!(labels(&p.completions_for_type(&AttributeType::String)), vec!["env"]);
    let generic = p.completions_for_type(&AttributeType::List(Box::new(AttributeType::Int)));
    assert_eq!(generic.len(), 4 + 17);
    assert_eq!(generic[2].label, "aws.Region.ap_northeast_1");
    assert_eq!(generic[2].detail.as_deref(), Some("Tokyo region"));
}

#[test]
fn cidr_and_ref_lists() {
    let p = CompletionProvider::new();
    let cidrs = p.cidr_completions();
    assert_eq!(cidrs.len(), 7);
    assert_eq!(cidrs[0].label, "\"10.0.0.0/16\"");
    assert_eq!(cidrs[0].detail.as_deref(), Some("VPC CIDR (65,536 IPs)"));
    let refs = p.ref_type_completions();
    assert_eq!(refs.len(), 8);
    assert_eq!(refs[0].insert_text.as_deref(), Some("aws.vpc)"));
}

#[test]
fn attribute_names_of_a_type() {
    let p = CompletionProvider::new();
    let items = p.attribute_completions_for_type("vpc");
    assert_eq!(
        labels(&items),
        vec!["id", "name", "region", "cidr_block", "enable_dns_support", "enable_dns_hostnames"]
    );
    assert_eq!(items[1].detail.as_deref(), Some("VPC name (Name tag) (required)"));
    assert_eq!(items[1].insert_text.as_deref(), Some("name = "));
    assert!(items[1].trigger_suggest);

    let all = p.attribute_completions_for_type("nothing");
    let names = labels(&all);
    assert_eq!(&names[..6], &["name", "region", "acl", "versioning", "expiration_days", "id"]);
    let mut sorted = names.clone();
    sorted.sort();
    sorted.dedup();
    assert_eq!(sorted.len(), names.len());
}

#[test]
fn resource_type_and_attribute_name_of_a_line() {
    let p = CompletionProvider::new();
    assert_eq!(p.extract_resource_type("let x = aws.route_table {"), Some("route_table".to_string()));
    assert_eq!(p.extract_resource_type("aws.security_group.egress_rule {"), Some("security_group.egress_rule".to_string()));
    assert_eq!(p.extract_resource_type("foo {"), None);
    assert_eq!(p.extract_attr_name("    enable_dns_hostnames = "), "enable_dns_hostnames");
}
