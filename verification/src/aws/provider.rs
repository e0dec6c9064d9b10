//! The AWS provider's own rules: resource type names, how DSL enum values
//! become AWS values, what a security group rule request holds and what
//! state the rules found under a name make up. The calls to AWS are made by
//! the caller with what these functions decide.

use vstd::prelude::*;

use crate::resource::{
    insert_entry, lookup, Resource, ResourceId, State, Value, ValueMap, ValueModel,
};
use crate::text::{
    char_is_lowercase, char_is_uppercase, chars_of, join, replace_char, split, str_eq,
    str_to_string, string_of, lower_char, upper_char,
};

verus! {

/// S3 Bucket resource type
pub struct S3BucketType;

/// VPC resource type
pub struct VpcType;

/// Subnet resource type
pub struct SubnetType;

/// Internet Gateway resource type
pub struct InternetGatewayType;

/// Route Table resource type
pub struct RouteTableType;

/// Route resource type
pub struct RouteType;

/// Security Group resource type
pub struct SecurityGroupType;

/// Security Group Ingress Rule resource type
pub struct SecurityGroupIngressRuleType;

/// Security Group Egress Rule resource type
pub struct SecurityGroupEgressRuleType;

impl S3BucketType {
    pub fn name(&self) -> (r: &'static str)
        ensures
            r@ == "s3.bucket"@,
    {
        "s3.bucket"
    }
}

impl VpcType {
    pub fn name(&self) -> (r: &'static str)
        ensures
            r@ == "vpc"@,
    {
        "vpc"
    }
}

impl SubnetType {
    pub fn name(&self) -> (r: &'static str)
        ensures
            r@ == "subnet"@,
    {
        "subnet"
    }
}

impl InternetGatewayType {
    pub fn name(&self) -> (r: &'static str)
        ensures
            r@ == "internet_gateway"@,
    {
        "internet_gateway"
    }
}

impl RouteTableType {
    pub fn name(&self) -> (r: &'static str)
        ensures
            r@ == "route_table"@,
    {
        "route_table"
    }
}

impl RouteType {
    pub fn name(&self) -> (r: &'static str)
        ensures
            r@ == "route"@,
    {
        "route"
    }
}

impl SecurityGroupType {
    pub fn name(&self) -> (r: &'static str)
        ensures
            r@ == "security_group"@,
    {
        "security_group"
    }
}

impl SecurityGroupIngressRuleType {
    pub fn name(&self) -> (r: &'static str)
        ensures
            r@ == "security_group.ingress_rule"@,
    {
        "security_group.ingress_rule"
    }
}

impl SecurityGroupEgressRuleType {
    pub fn name(&self) -> (r: &'static str)
        ensures
            r@ == "security_group.egress_rule"@,
    {
        "security_group.egress_rule"
    }
}

// ---------------------------------------------------------------------------
// Enum values
// ---------------------------------------------------------------------------

/// Whether a text's first character is upper case.
pub open spec fn starts_upper(s: Seq<char>) -> bool {
    s.len() > 0 && upper_char(s[0])
}

/// Whether every character of a text is lower case.
pub open spec fn all_lower(s: Seq<char>) -> bool {
    forall|i: int| 0 <= i < s.len() ==> lower_char(#[trigger] s[i])
}

/// The AWS form of a DSL enum value: `aws.Region.ap_northeast_1` and
/// `Region.ap_northeast_1` become `ap-northeast-1`; other texts stay as
/// they are.
pub open spec fn enum_value_text(value: Seq<char>) -> Seq<char> {
    let parts = split(value, '.');
    if parts.len() == 2 {
        if starts_upper(parts[0]) {
            replace_char(parts[1], '_', '-')
        } else {
            value
        }
    } else if parts.len() == 3 {
        if all_lower(parts[0]) && starts_upper(parts[1]) {
            replace_char(parts[2], '_', '-')
        } else {
            value
        }
    } else {
        value
    }
}

/// The DSL forms `Type.value` and `provider.Type.value` of an enum value
/// (a type name that starts upper case, a provider name in lower case, and
/// a value with no dot and no underscore) all give the value itself: the
/// last dot-separated piece.
pub proof fn lemma_enum_value_last_piece(provider: Seq<char>, kind_name: Seq<char>, v: Seq<char>)
    requires
        !crate::text::has_char(provider, '.'),
        !crate::text::has_char(kind_name, '.'),
        !crate::text::has_char(v, '.'),
        !crate::text::has_char(v, '_'),
        starts_upper(kind_name),
        all_lower(provider),
    ensures
        enum_value_text(kind_name + "."@ + v) == v,
        enum_value_text(provider + "."@ + kind_name + "."@ + v) == v,
{
    reveal_strlit(".");
    assert("."@ =~= seq!['.']);
    crate::text::lemma_split_no_sep(provider, '.');
    crate::text::lemma_split_no_sep(kind_name, '.');
    crate::text::lemma_split_no_sep(v, '.');
    crate::text::lemma_split_concat(kind_name, v, '.');
    crate::text::lemma_split_concat(provider, kind_name + seq!['.'] + v, '.');
    assert(provider + "."@ + kind_name + "."@ + v =~= provider + seq!['.'] + (kind_name + seq!['.'] + v));
    assert(replace_char(v, '_', '-') =~= v) by {
        assert forall|i: int| 0 <= i < v.len() implies v[i] != '_' by {}
    }
}

/// The AWS form of a protocol: an enum value, with `all` meaning `-1`.
pub open spec fn protocol_value_text(value: Seq<char>) -> Seq<char> {
    let raw = enum_value_text(value);
    if raw == "all"@ {
        "-1"@
    } else {
        raw
    }
}

fn starts_upper_chars(s: &[char]) -> (r: bool)
    ensures
        r == starts_upper(s@),
{
    s.len() > 0 && char_is_uppercase(s[0])
}

fn all_lower_chars(s: &[char]) -> (r: bool)
    ensures
        r == all_lower(s@),
{
    let mut i: usize = 0;
    while i < s.len()
        invariant
            i <= s.len(),
            forall|j: int| 0 <= j < i ==> lower_char(#[trigger] s@[j]),
        decreases s.len() - i,
    {
        if !char_is_lowercase(s[i]) {
            return false;
        }
        i += 1;
    }
    true
}

/// Convert a DSL enum value (provider.TypeName.value_name) to the AWS form
/// (value-name).
pub fn convert_enum_value(value: &str) -> (r: String)
    ensures
        r@ == enum_value_text(value@),
{
    let v = chars_of(value);
    let parts = crate::text::split_chars(v.as_slice(), '.');
    proof {
        assert(crate::text::views(parts@) == split(value@, '.'));
    }
    if parts.len() == 2 {
        assert(crate::text::views(parts@)[0] == parts@[0]@);
        assert(crate::text::views(parts@)[1] == parts@[1]@);
        if starts_upper_chars(parts[0].as_slice()) {
            let raw = crate::text::replace_char_chars(parts[1].as_slice(), '_', '-');
            return string_of(raw.as_slice());
        }
    } else if parts.len() == 3 {
        assert(crate::text::views(parts@)[0] == parts@[0]@);
        assert(crate::text::views(parts@)[1] == parts@[1]@);
        assert(crate::text::views(parts@)[2] == parts@[2]@);
        if all_lower_chars(parts[0].as_slice()) && starts_upper_chars(parts[1].as_slice()) {
            let raw = crate::text::replace_char_chars(parts[2].as_slice(), '_', '-');
            return string_of(raw.as_slice());
        }
    }
    str_to_string(value)
}

/// Convert a protocol value from the DSL form to the AWS form.
pub fn convert_protocol_value(value: &str) -> (r: String)
    ensures
        r@ == protocol_value_text(value@),
{
    let raw = convert_enum_value(value);
    if str_eq(raw.as_str(), "all") {
        str_to_string("-1")
    } else {
        raw
    }
}

// ---------------------------------------------------------------------------
// Security group rules
// ---------------------------------------------------------------------------

/// The text stored under a key, if it is a text.
pub open spec fn str_attr(attrs: Seq<(Seq<char>, ValueModel)>, key: Seq<char>) -> Option<Seq<char>> {
    match lookup(attrs, key) {
        Some(ValueModel::Str(s)) => Some(s),
        _ => None,
    }
}

/// The port stored under a key (an integer cut to 32 bits), or 0.
pub open spec fn port_attr(attrs: Seq<(Seq<char>, ValueModel)>, key: Seq<char>) -> i32 {
    match lookup(attrs, key) {
        Some(ValueModel::Int(n)) => n as i32,
        _ => 0,
    }
}

/// The texts among a list's values, in order.
pub open spec fn texts_in(items: Seq<ValueModel>) -> Seq<Seq<char>>
    decreases items.len(),
{
    if items.len() == 0 {
        seq![]
    } else {
        let rest = texts_in(items.drop_last());
        match items.last() {
            ValueModel::Str(s) => rest.push(s),
            _ => rest,
        }
    }
}

/// The CIDR blocks a rule allows: its `cidr_blocks` list, else its single
/// `cidr`, else everything.
pub open spec fn rule_cidrs(attrs: Seq<(Seq<char>, ValueModel)>) -> Seq<Seq<char>> {
    match lookup(attrs, "cidr_blocks"@) {
        Some(ValueModel::List(items)) => texts_in(items),
        _ => match lookup(attrs, "cidr"@) {
            Some(ValueModel::Str(s)) => seq![s],
            _ => seq!["0.0.0.0/0"@],
        },
    }
}

/// Why a security group rule cannot be created.
#[derive(Debug, Clone, Copy, PartialEq, Eq, Structural)]
pub enum RuleRequestError {
    NameRequired,
    GroupIdRequired,
}

impl RuleRequestError {
    /// The error's message.
    pub fn message(&self) -> (r: &'static str)
        ensures
            r@ == match self {
                RuleRequestError::NameRequired => "Rule name is required"@,
                RuleRequestError::GroupIdRequired => "Security Group ID is required"@,
            },
    {
        match self {
            RuleRequestError::NameRequired => "Rule name is required",
            RuleRequestError::GroupIdRequired => "Security Group ID is required",
        }
    }
}

/// What creating a security group rule asks for: the rule's name (tagged on
/// every rule created), the group, the protocol, the port range and the
/// CIDR blocks.
#[derive(Debug, Clone)]
pub struct RuleRequest {
    pub name: String,
    pub group_id: String,
    pub protocol: String,
    pub from_port: i32,
    pub to_port: i32,
    pub cidrs: Vec<String>,
}

/// The request for a rule resource's attributes.
pub open spec fn rule_request(attrs: Seq<(Seq<char>, ValueModel)>) -> Result<
    (Seq<char>, Seq<char>, Seq<char>, i32, i32, Seq<Seq<char>>),
    RuleRequestError,
> {
    match str_attr(attrs, "name"@) {
        None => Err(RuleRequestError::NameRequired),
        Some(name) => match str_attr(attrs, "security_group_id"@) {
            None => Err(RuleRequestError::GroupIdRequired),
            Some(group) => Ok(
                (
                    name,
                    group,
                    match lookup(attrs, "protocol"@) {
                        Some(ValueModel::Str(s)) => protocol_value_text(s),
                        _ => "-1"@,
                    },
                    port_attr(attrs, "from_port"@),
                    port_attr(attrs, "to_port"@),
                    rule_cidrs(attrs),
                ),
            ),
        },
    }
}

/// The model of a rule request.
pub open spec fn request_model(r: RuleRequest) -> (Seq<char>, Seq<char>, Seq<char>, i32, i32, Seq<Seq<char>>) {
    (
        r.name@,
        r.group_id@,
        r.protocol@,
        r.from_port,
        r.to_port,
        crate::schema::strings_view(r.cidrs@),
    )
}

fn string_attr(attrs: &ValueMap, key: &str) -> (r: Option<String>)
    ensures
        match str_attr(attrs@, key@) {
            Some(s) => r matches Some(x) && x@ == s,
            None => r is None,
        },
{
    match attrs.get(key) {
        Some(Value::String(s)) => Some(s.clone()),
        _ => None,
    }
}

fn port_of(attrs: &ValueMap, key: &str) -> (r: i32)
    ensures
        r == port_attr(attrs@, key@),
{
    match attrs.get(key) {
        Some(Value::Int(n)) => #[verifier::truncate] (*n as i32),
        _ => 0,
    }
}

/// The texts among a list of values.
fn texts_of(items: &Vec<Value>) -> (r: Vec<String>)
    ensures
        crate::schema::strings_view(r@) == texts_in(crate::resource::values_view(items@)),
{
    let ghost iv = crate::resource::values_view(items@);
    let mut out: Vec<String> = Vec::new();
    let mut k: usize = 0;
    proof {
        assert(iv.take(0) =~= Seq::<ValueModel>::empty());
        assert(crate::schema::strings_view(out@) =~= Seq::<Seq<char>>::empty());
    }
    while k < items.len()
        invariant
            k <= items.len(),
            iv == crate::resource::values_view(items@),
            crate::schema::strings_view(out@) == texts_in(iv.take(k as int)),
        decreases items.len() - k,
    {
        proof {
            assert(iv.take(k + 1).drop_last() =~= iv.take(k as int));
            assert(iv.take(k + 1).last() == items@[k as int]@);
        }
        match &items[k] {
            Value::String(s) => {
                let ghost before = crate::schema::strings_view(out@);
                out.push(s.clone());
                assert(crate::schema::strings_view(out@) =~= before.push(s@));
            },
            _ => {},
        }
        k += 1;
    }
    proof {
        assert(iv.take(k as int) =~= iv);
    }
    out
}

/// What creating a security group rule resource asks for.
pub fn security_group_rule_request(resource: &Resource) -> (r: Result<RuleRequest, RuleRequestError>)
    ensures
        match rule_request(resource.attributes@) {
            Ok(m) => r matches Ok(x) && request_model(x) == m,
            Err(e) => r == Err::<RuleRequest, RuleRequestError>(e),
        },
{
    let attrs = &resource.attributes;
    let name = match string_attr(attrs, "name") {
        Some(s) => s,
        None => {
            return Err(RuleRequestError::NameRequired);
        },
    };
    let group_id = match string_attr(attrs, "security_group_id") {
        Some(s) => s,
        None => {
            return Err(RuleRequestError::GroupIdRequired);
        },
    };
    let protocol = match attrs.get("protocol") {
        Some(Value::String(s)) => convert_protocol_value(s.as_str()),
        _ => str_to_string("-1"),
    };
    let from_port = port_of(attrs, "from_port");
    let to_port = port_of(attrs, "to_port");
    let cidrs = match attrs.get("cidr_blocks") {
        Some(Value::List(items)) => {
            proof {
                crate::resource::lemma_list_view(*items);
            }
            texts_of(items)
        },
        _ => match attrs.get("cidr") {
            Some(Value::String(s)) => {
                let mut v: Vec<String> = Vec::new();
                v.push(s.clone());
                assert(crate::schema::strings_view(v@) =~= seq![s@]);
                v
            },
            _ => {
                let mut v: Vec<String> = Vec::new();
                v.push(str_to_string("0.0.0.0/0"));
                assert(crate::schema::strings_view(v@) =~= seq!["0.0.0.0/0"@]);
                v
            },
        },
    };
    Ok(RuleRequest { name, group_id, protocol, from_port, to_port, cidrs })
}

/// What AWS reports of one security group rule.
#[derive(Debug, Clone)]
pub struct RuleInfo {
    pub rule_id: Option<String>,
    pub group_id: Option<String>,
    pub ip_protocol: Option<String>,
    pub from_port: Option<i32>,
    pub to_port: Option<i32>,
    pub cidr_ipv4: Option<String>,
    pub is_egress: Option<bool>,
}

/// The rules of one direction (`is_egress` reported as the opposite of
/// `is_ingress`), in order.
pub open spec fn rules_of_direction(rules: Seq<RuleInfo>, is_ingress: bool) -> Seq<RuleInfo>
    decreases rules.len(),
{
    if rules.len() == 0 {
        seq![]
    } else {
        let rest = rules_of_direction(rules.drop_last(), is_ingress);
        if rules.last().is_egress == Some(!is_ingress) {
            rest.push(rules.last())
        } else {
            rest
        }
    }
}

/// The rules of one direction (exec).
pub fn matching_rules(rules: Vec<RuleInfo>, is_ingress: bool) -> (r: Vec<RuleInfo>)
    ensures
        r@ == rules_of_direction(rules@, is_ingress),
{
    let mut out: Vec<RuleInfo> = Vec::new();
    let mut rules = rules;
    let ghost all = rules@;
    let mut k: usize = 0;
    proof {
        assert(all.take(0) =~= Seq::<RuleInfo>::empty());
    }
    assert(all.len() == rules.len());
    while rules.len() > 0
        invariant
            k + rules.len() == all.len(),
            all.len() <= usize::MAX,
            rules@ == all.skip(k as int),
            out@ == rules_of_direction(all.take(k as int), is_ingress),
        decreases rules.len(),
    {
        let r = rules.remove(0);
        proof {
            assert(all.take(k + 1).drop_last() =~= all.take(k as int));
            assert(all.take(k + 1).last() == r);
            assert(rules@ =~= all.skip(k + 1));
        }
        let keep = match r.is_egress {
            Some(e) => e == !is_ingress,
            None => false,
        };
        if keep {
            out.push(r);
        }
        k += 1;
    }
    proof {
        assert(all.take(k as int) =~= all);
    }
    out
}

/// The rule ids reported, in order.
pub open spec fn rule_ids(rules: Seq<RuleInfo>) -> Seq<Seq<char>>
    decreases rules.len(),
{
    if rules.len() == 0 {
        seq![]
    } else {
        let rest = rule_ids(rules.drop_last());
        match rules.last().rule_id {
            Some(id) => rest.push(id@),
            None => rest,
        }
    }
}

/// The IPv4 CIDR blocks reported, in order, as values.
pub open spec fn rule_cidr_values(rules: Seq<RuleInfo>) -> Seq<ValueModel>
    decreases rules.len(),
{
    if rules.len() == 0 {
        seq![]
    } else {
        let rest = rule_cidr_values(rules.drop_last());
        match rules.last().cidr_ipv4 {
            Some(c) => rest.push(ValueModel::Str(c@)),
            None => rest,
        }
    }
}

/// The attributes of the rules found under a name: the name, the region,
/// the joined rule ids, then what the first rule says of the group,
/// protocol and ports, then every rule's CIDR block.
pub open spec fn rule_attributes(name: Seq<char>, region: Seq<char>, rules: Seq<RuleInfo>) -> Seq<
    (Seq<char>, ValueModel),
> {
    let first = rules[0];
    let a0 = insert_entry(
        insert_entry(seq![], "name"@, ValueModel::Str(name)),
        "region"@,
        ValueModel::Str("aws.Region."@ + replace_char(region, '-', '_')),
    );
    let ids = rule_ids(rules);
    let a1 = if ids.len() > 0 {
        insert_entry(a0, "id"@, ValueModel::Str(join(ids, ","@)))
    } else {
        a0
    };
    let a2 = match first.group_id {
        Some(g) => insert_entry(a1, "security_group_id"@, ValueModel::Str(g@)),
        None => a1,
    };
    let a3 = match first.ip_protocol {
        Some(p) => insert_entry(a2, "protocol"@, ValueModel::Str(p@)),
        None => a2,
    };
    let a4 = match first.from_port {
        Some(p) => insert_entry(a3, "from_port"@, ValueModel::Int(p as i64)),
        None => a3,
    };
    let a5 = match first.to_port {
        Some(p) => insert_entry(a4, "to_port"@, ValueModel::Int(p as i64)),
        None => a4,
    };
    let cidrs = rule_cidr_values(rules);
    if cidrs.len() > 0 {
        insert_entry(a5, "cidr_blocks"@, ValueModel::List(cidrs))
    } else {
        a5
    }
}

/// The resource type of a rule direction.
pub open spec fn rule_type(is_ingress: bool) -> Seq<char> {
    if is_ingress {
        "security_group.ingress_rule"@
    } else {
        "security_group.egress_rule"@
    }
}

/// The state of the rules found under a name in one direction: none found
/// means the rule does not exist.
pub fn security_group_rule_state(name: &str, is_ingress: bool, region: &str, rules: &Vec<RuleInfo>) -> (r:
    State)
    ensures
        r.id@ == (rule_type(is_ingress), name@),
        r.exists == (rules.len() > 0),
        rules.len() == 0 ==> r.attributes@ == Seq::<(Seq<char>, ValueModel)>::empty(),
        rules.len() > 0 ==> r.attributes@ == rule_attributes(name@, region@, rules@),
{
    let id = if is_ingress {
        ResourceId::new("security_group.ingress_rule", name)
    } else {
        ResourceId::new("security_group.egress_rule", name)
    };
    if rules.len() == 0 {
        return State::not_found(id);
    }
    let mut attrs = ValueMap::new();
    attrs.insert(str_to_string("name"), Value::String(str_to_string(name)));
    let rc = chars_of(region);
    let replaced = crate::text::replace_char_chars(rc.as_slice(), '-', '_');
    let mut region_text = str_to_string("aws.Region.");
    crate::text::push_chars(&mut region_text, replaced.as_slice());
    attrs.insert(str_to_string("region"), Value::String(region_text));
    let mut ids: Vec<Vec<char>> = Vec::new();
    let mut cidrs: Vec<Value> = Vec::new();
    let mut k: usize = 0;
    proof {
        assert(rules@.take(0) =~= Seq::<RuleInfo>::empty());
        assert(crate::text::views(ids@) =~= Seq::<Seq<char>>::empty());
        assert(crate::resource::values_view(cidrs@) =~= Seq::<ValueModel>::empty());
    }
    while k < rules.len()
        invariant
            k <= rules.len(),
            crate::text::views(ids@) == rule_ids(rules@.take(k as int)),
            crate::resource::values_view(cidrs@) == rule_cidr_values(rules@.take(k as int)),
        decreases rules.len() - k,
    {
        proof {
            assert(rules@.take(k + 1).drop_last() =~= rules@.take(k as int));
            assert(rules@.take(k + 1).last() == rules@[k as int]);
        }
        match &rules[k].rule_id {
            Some(s) => {
                let ghost before = crate::text::views(ids@);
                ids.push(chars_of(s.as_str()));
                assert(crate::text::views(ids@) =~= before.push(s@));
            },
            None => {},
        }
        match &rules[k].cidr_ipv4 {
            Some(c) => {
                let ghost before = crate::resource::values_view(cidrs@);
                cidrs.push(Value::String(c.clone()));
                assert(crate::resource::values_view(cidrs@) =~= before.push(ValueModel::Str(c@)));
            },
            None => {},
        }
        k += 1;
    }
    proof {
        assert(rules@.take(k as int) =~= rules@);
    }
    if ids.len() > 0 {
        let comma = chars_of(",");
        let joined = crate::text::join_chars(ids.as_slice(), comma.as_slice());
        attrs.insert(str_to_string("id"), Value::String(string_of(joined.as_slice())));
    }
    let first = &rules[0];
    match &first.group_id {
        Some(g) => attrs.insert(str_to_string("security_group_id"), Value::String(g.clone())),
        None => {},
    }
    match &first.ip_protocol {
        Some(p) => attrs.insert(str_to_string("protocol"), Value::String(p.clone())),
        None => {},
    }
    match first.from_port {
        Some(p) => attrs.insert(str_to_string("from_port"), Value::Int(p as i64)),
        None => {},
    }
    match first.to_port {
        Some(p) => attrs.insert(str_to_string("to_port"), Value::Int(p as i64)),
        None => {},
    }
    if cidrs.len() > 0 {
        let ghost cv = crate::resource::values_view(cidrs@);
        proof {
            crate::resource::lemma_list_view(cidrs);
        }
        attrs.insert(str_to_string("cidr_blocks"), Value::List(cidrs));
    }
    State::existing(id, attrs)
}

} // verus!
