//! EC2 resource schema definitions

use vstd::prelude::*;

use crate::aws::types::{aws_region, is_region_type};
use crate::resource::{lemma_dict_view, lemma_list_view, opt_str_view, Value, ValueModel};
use crate::schema::{
    attr_desc, described, schema_head, first_bad_octet, is_custom, lemma_first_bad_octet, msg_view,
    strings_view, AttributeType, ResourceSchema, Validator,
};
use crate::text::{chars_of, parse_u8, parse_u8_chars, split, split_chars, str_to_string, views};

verus! {

/// The outcome of the EC2 CIDR block check.
pub open spec fn spec_cidr_block(v: ValueModel) -> Result<(), Seq<char>> {
    match v {
        ValueModel::Str(s) => {
            let parts = split(s, '/');
            if parts.len() != 2 {
                Err("CIDR block must be in format x.x.x.x/n"@)
            } else {
                let ip_parts = split(parts[0], '.');
                if ip_parts.len() != 4 || first_bad_octet(ip_parts) < 4 {
                    Err("Invalid IP address in CIDR block"@)
                } else {
                    match parse_u8(parts[1]) {
                        None => Err("Invalid prefix length in CIDR block"@),
                        Some(p) => if p > 32 {
                            Err("Prefix length must be between 0 and 32"@)
                        } else {
                            Ok(())
                        },
                    }
                }
            }
        },
        _ => Err("Expected string"@),
    }
}

#[verifier::loop_isolation(false)]
fn cidr_block_text(s: &str) -> (r: Result<(), String>)
    ensures
        msg_view(r) == spec_cidr_block(ValueModel::Str(s@)),
{
    let c = chars_of(s);
    let parts = split_chars(c.as_slice(), '/');
    if parts.len() != 2 {
        return Err(str_to_string("CIDR block must be in format x.x.x.x/n"));
    }
    proof {
        assert(views(parts@)[0] == parts@[0]@);
        assert(views(parts@)[1] == parts@[1]@);
    }
    let ip_parts = split_chars(parts[0].as_slice(), '.');
    if ip_parts.len() != 4 {
        return Err(str_to_string("Invalid IP address in CIDR block"));
    }
    let mut i: usize = 0;
    while i < 4
        invariant
            i <= 4,
            ip_parts.len() == 4,
            forall|j: int| 0 <= j < i ==> parse_u8(#[trigger] views(ip_parts@)[j]) is Some,
        decreases 4 - i,
    {
        proof {
            assert(views(ip_parts@)[i as int] == ip_parts@[i as int]@);
        }
        if parse_u8_chars(ip_parts[i].as_slice()).is_none() {
            proof {
                lemma_first_bad_octet(views(ip_parts@), i as int);
            }
            return Err(str_to_string("Invalid IP address in CIDR block"));
        }
        i += 1;
    }
    proof {
        lemma_first_bad_octet(views(ip_parts@), 4);
    }
    match parse_u8_chars(parts[1].as_slice()) {
        None => Err(str_to_string("Invalid prefix length in CIDR block")),
        Some(p) => if p > 32 {
            Err(str_to_string("Prefix length must be between 0 and 32"))
        } else {
            Ok(())
        },
    }
}

pub fn check_cidr_block(v: &Value) -> (r: Result<(), String>)
    ensures
        msg_view(r) == spec_cidr_block(v@),
{
    match v {
        Value::String(s) => cidr_block_text(s.as_str()),
        Value::List(items) => {
            proof {
                lemma_list_view(*items);
            }
            Err(str_to_string("Expected string"))
        },
        Value::Dict(m) => {
            proof {
                lemma_dict_view(*m);
            }
            Err(str_to_string("Expected string"))
        },
        _ => Err(str_to_string("Expected string")),
    }
}

/// The outcome of the port number check.
pub open spec fn spec_port_number(v: ValueModel) -> Result<(), Seq<char>> {
    match v {
        ValueModel::Int(n) => if 0 <= n <= 65535 {
            Ok(())
        } else {
            Err("Port number must be between 0 and 65535"@)
        },
        _ => Err("Expected integer"@),
    }
}

pub fn check_port_number(v: &Value) -> (r: Result<(), String>)
    ensures
        msg_view(r) == spec_port_number(v@),
{
    match v {
        Value::Int(n) => if *n >= 0 && *n <= 65535 {
            Ok(())
        } else {
            Err(str_to_string("Port number must be between 0 and 65535"))
        },
        Value::List(items) => {
            proof {
                lemma_list_view(*items);
            }
            Err(str_to_string("Expected integer"))
        },
        Value::Dict(m) => {
            proof {
                lemma_dict_view(*m);
            }
            Err(str_to_string("Expected integer"))
        },
        _ => Err(str_to_string("Expected integer")),
    }
}

/// CIDR block type (with validation)
pub fn cidr_block() -> (r: AttributeType)
    ensures
        is_cidr_block_type(r),
{
    AttributeType::Custom {
        name: str_to_string("CidrBlock"),
        base: Box::new(AttributeType::String),
        validate: Validator::CidrBlock,
        namespace: None,
    }
}

/// Whether a type is the EC2 CIDR block type.
pub open spec fn is_cidr_block_type(t: AttributeType) -> bool {
    is_custom(t, "CidrBlock"@, AttributeType::String, Validator::CidrBlock, None)
}

/// Port number type (with validation)
pub fn port_number() -> (r: AttributeType)
    ensures
        is_port_number_type(r),
{
    AttributeType::Custom {
        name: str_to_string("PortNumber"),
        base: Box::new(AttributeType::Int),
        validate: Validator::PortNumber,
        namespace: None,
    }
}

/// Whether a type is the EC2 port number type.
pub open spec fn is_port_number_type(t: AttributeType) -> bool {
    is_custom(t, "PortNumber"@, AttributeType::Int, Validator::PortNumber, None)
}

/// Protocol type for security group rules
pub fn protocol() -> (r: AttributeType)
    ensures
        is_protocol_type(r),
{
    let mut v: Vec<String> = Vec::new();
    v.push(str_to_string("tcp"));
    v.push(str_to_string("udp"));
    v.push(str_to_string("icmp"));
    // All traffic
    v.push(str_to_string("-1"));
    proof {
        assert(strings_view(v@) =~= seq!["tcp"@, "udp"@, "icmp"@, "-1"@]);
    }
    AttributeType::Enum(v)
}

/// Whether a type is the enum of security group rule protocols.
pub open spec fn is_protocol_type(t: AttributeType) -> bool {
    t matches AttributeType::Enum(vs) && strings_view(vs@) == seq!["tcp"@, "udp"@, "icmp"@, "-1"@]
}

/// The VPC schema.
pub open spec fn is_vpc_schema(r: ResourceSchema) -> bool {
    let a = r.attributes@;
    &&& schema_head(r, "vpc"@, "An AWS VPC (Virtual Private Cloud)"@, 5)
    &&& attr_desc(a[0], "name"@, true, "VPC name (Name tag)"@)
    &&& a[0].attr_type == AttributeType::String
    &&& attr_desc(a[1], "region"@, true, "The AWS region for the VPC"@)
    &&& is_region_type(a[1].attr_type)
    &&& attr_desc(a[2], "cidr_block"@, true, "The IPv4 CIDR block for the VPC"@)
    &&& is_cidr_block_type(a[2].attr_type)
    &&& attr_desc(a[3], "enable_dns_support"@, false, "Enable DNS resolution support"@)
    &&& a[3].attr_type == AttributeType::Bool
    &&& attr_desc(a[4], "enable_dns_hostnames"@, false, "Enable DNS hostnames"@)
    &&& a[4].attr_type == AttributeType::Bool
}

/// Returns the schema for VPC
pub fn vpc_schema() -> (r: ResourceSchema)
    ensures
        is_vpc_schema(r),
{
    proof {
        reveal_strlit("name");
        reveal_strlit("region");
        reveal_strlit("cidr_block");
        reveal_strlit("enable_dns_support");
        reveal_strlit("enable_dns_hostnames");
        assert("name"@.len() == 4 && "region"@.len() == 6 && "cidr_block"@.len() == 10);
        assert("enable_dns_support"@.len() == 18 && "enable_dns_hostnames"@.len() == 20);
    }
    let mut r = ResourceSchema::described("vpc", "An AWS VPC (Virtual Private Cloud)");
    r = r.push_attribute(described("name", AttributeType::String, true, "VPC name (Name tag)"));
    r = r.push_attribute(described("region", aws_region(), true, "The AWS region for the VPC"));
    r = r.push_attribute(
        described("cidr_block", cidr_block(), true, "The IPv4 CIDR block for the VPC"),
    );
    r = r.push_attribute(
        described("enable_dns_support", AttributeType::Bool, false, "Enable DNS resolution support"),
    );
    r = r.push_attribute(
        described("enable_dns_hostnames", AttributeType::Bool, false, "Enable DNS hostnames"),
    );
    r
}

/// The subnet schema.
pub open spec fn is_subnet_schema(r: ResourceSchema) -> bool {
    let a = r.attributes@;
    &&& schema_head(r, "subnet"@, "An AWS VPC Subnet"@, 5)
    &&& attr_desc(a[0], "name"@, true, "Subnet name (Name tag)"@)
    &&& a[0].attr_type == AttributeType::String
    &&& attr_desc(a[1], "region"@, true, "The AWS region for the subnet"@)
    &&& is_region_type(a[1].attr_type)
    &&& attr_desc(a[2], "vpc"@, true, "VPC name to create the subnet in"@)
    &&& a[2].attr_type == AttributeType::String
    &&& attr_desc(a[3], "cidr_block"@, true, "The IPv4 CIDR block for the subnet"@)
    &&& is_cidr_block_type(a[3].attr_type)
    &&& attr_desc(a[4], "availability_zone"@, false, "The availability zone for the subnet"@)
    &&& a[4].attr_type == AttributeType::String
}

/// Returns the schema for Subnet
pub fn subnet_schema() -> (r: ResourceSchema)
    ensures
        is_subnet_schema(r),
{
    proof {
        reveal_strlit("name");
        reveal_strlit("region");
        reveal_strlit("vpc");
        reveal_strlit("cidr_block");
        reveal_strlit("availability_zone");
        assert("name"@.len() == 4 && "region"@.len() == 6 && "vpc"@.len() == 3);
        assert("cidr_block"@.len() == 10 && "availability_zone"@.len() == 17);
    }
    let mut r = ResourceSchema::described("subnet", "An AWS VPC Subnet");
    r = r.push_attribute(described("name", AttributeType::String, true, "Subnet name (Name tag)"));
    r = r.push_attribute(described("region", aws_region(), true, "The AWS region for the subnet"));
    r = r.push_attribute(described("vpc", AttributeType::String, true, "VPC name to create the subnet in"));
    r = r.push_attribute(described("cidr_block", cidr_block(), true, "The IPv4 CIDR block for the subnet"));
    r = r.push_attribute(described("availability_zone", AttributeType::String, false, "The availability zone for the subnet"));
    r
}

/// The internet gateway schema.
pub open spec fn is_internet_gateway_schema(r: ResourceSchema) -> bool {
    let a = r.attributes@;
    &&& schema_head(r, "internet_gateway"@, "An AWS Internet Gateway"@, 3)
    &&& attr_desc(a[0], "name"@, true, "Internet Gateway name (Name tag)"@)
    &&& a[0].attr_type == AttributeType::String
    &&& attr_desc(a[1], "region"@, true, "The AWS region for the Internet Gateway"@)
    &&& is_region_type(a[1].attr_type)
    &&& attr_desc(a[2], "vpc"@, false, "VPC name to attach the Internet Gateway to"@)
    &&& a[2].attr_type == AttributeType::String
}

/// Returns the schema for Internet Gateway
pub fn internet_gateway_schema() -> (r: ResourceSchema)
    ensures
        is_internet_gateway_schema(r),
{
    proof {
        reveal_strlit("name");
        reveal_strlit("region");
        reveal_strlit("vpc");
        assert("name"@.len() == 4 && "region"@.len() == 6 && "vpc"@.len() == 3);
    }
    let mut r = ResourceSchema::described("internet_gateway", "An AWS Internet Gateway");
    r = r.push_attribute(described("name", AttributeType::String, true, "Internet Gateway name (Name tag)"));
    r = r.push_attribute(described("region", aws_region(), true, "The AWS region for the Internet Gateway"));
    r = r.push_attribute(described("vpc", AttributeType::String, false, "VPC name to attach the Internet Gateway to"));
    r
}

/// The type of one route: a map of strings.
pub open spec fn route_schema_spec() -> AttributeType {
    AttributeType::Dict(Box::new(AttributeType::String))
}

/// Route schema for route tables
fn route_schema() -> (r: AttributeType)
    ensures
        r == route_schema_spec(),
{
    AttributeType::Dict(Box::new(AttributeType::String))
}

/// The route table schema.
pub open spec fn is_route_table_schema(r: ResourceSchema) -> bool {
    let a = r.attributes@;
    &&& schema_head(r, "route_table"@, "An AWS VPC Route Table"@, 4)
    &&& attr_desc(a[0], "name"@, true, "Route Table name (Name tag)"@)
    &&& a[0].attr_type == AttributeType::String
    &&& attr_desc(a[1], "region"@, true, "The AWS region for the Route Table"@)
    &&& is_region_type(a[1].attr_type)
    &&& attr_desc(a[2], "vpc"@, true, "VPC name for the Route Table"@)
    &&& a[2].attr_type == AttributeType::String
    &&& attr_desc(a[3], "routes"@, false, "List of routes"@)
    &&& a[3].attr_type == AttributeType::List(Box::new(route_schema_spec()))
}

/// Returns the schema for Route Table
pub fn route_table_schema() -> (r: ResourceSchema)
    ensures
        is_route_table_schema(r),
{
    proof {
        reveal_strlit("name");
        reveal_strlit("region");
        reveal_strlit("vpc");
        reveal_strlit("routes");
        assert("name"@.len() == 4 && "region"@.len() == 6 && "vpc"@.len() == 3);
        assert("routes"@.len() == 6);
        assert("region"@[1] == 'e' && "routes"@[1] == 'o');
    }
    let mut r = ResourceSchema::described("route_table", "An AWS VPC Route Table");
    r = r.push_attribute(described("name", AttributeType::String, true, "Route Table name (Name tag)"));
    r = r.push_attribute(described("region", aws_region(), true, "The AWS region for the Route Table"));
    r = r.push_attribute(described("vpc", AttributeType::String, true, "VPC name for the Route Table"));
    r = r.push_attribute(described("routes", AttributeType::List(Box::new(route_schema())), false, "List of routes"));
    r
}

/// The security group schema.
pub open spec fn is_security_group_schema(r: ResourceSchema) -> bool {
    let a = r.attributes@;
    &&& schema_head(r, "security_group"@, "An AWS VPC Security Group"@, 4)
    &&& attr_desc(a[0], "name"@, true, "Security Group name (Name tag)"@)
    &&& a[0].attr_type == AttributeType::String
    &&& attr_desc(a[1], "region"@, true, "The AWS region for the Security Group"@)
    &&& is_region_type(a[1].attr_type)
    &&& attr_desc(a[2], "vpc"@, true, "VPC name for the Security Group"@)
    &&& a[2].attr_type == AttributeType::String
    &&& attr_desc(a[3], "description"@, false, "Description of the Security Group"@)
    &&& a[3].attr_type == AttributeType::String
}

/// Returns the schema for Security Group
pub fn security_group_schema() -> (r: ResourceSchema)
    ensures
        is_security_group_schema(r),
{
    proof {
        reveal_strlit("name");
        reveal_strlit("region");
        reveal_strlit("vpc");
        reveal_strlit("description");
        assert("name"@.len() == 4 && "region"@.len() == 6 && "vpc"@.len() == 3);
        assert("description"@.len() == 11);
    }
    let mut r = ResourceSchema::described("security_group", "An AWS VPC Security Group");
    r = r.push_attribute(described("name", AttributeType::String, true, "Security Group name (Name tag)"));
    r = r.push_attribute(described("region", aws_region(), true, "The AWS region for the Security Group"));
    r = r.push_attribute(described("vpc", AttributeType::String, true, "VPC name for the Security Group"));
    r = r.push_attribute(described("description", AttributeType::String, false, "Description of the Security Group"));
    r
}

/// The security group ingress rule schema.
pub open spec fn is_ingress_rule_schema(r: ResourceSchema) -> bool {
    let a = r.attributes@;
    &&& schema_head(r, "security_group.ingress_rule"@, "An inbound rule for an AWS VPC Security Group"@, 7)
    &&& attr_desc(a[0], "name"@, true, "Rule name (for identification)"@)
    &&& a[0].attr_type == AttributeType::String
    &&& attr_desc(a[1], "region"@, true, "The AWS region"@)
    &&& is_region_type(a[1].attr_type)
    &&& attr_desc(a[2], "security_group"@, true, "Security Group name"@)
    &&& a[2].attr_type == AttributeType::String
    &&& attr_desc(a[3], "protocol"@, true, "Protocol (tcp, udp, icmp, or -1 for all)"@)
    &&& is_protocol_type(a[3].attr_type)
    &&& attr_desc(a[4], "from_port"@, true, "Start of port range"@)
    &&& is_port_number_type(a[4].attr_type)
    &&& attr_desc(a[5], "to_port"@, true, "End of port range"@)
    &&& is_port_number_type(a[5].attr_type)
    &&& attr_desc(a[6], "cidr"@, false, "CIDR block to allow"@)
    &&& is_cidr_block_type(a[6].attr_type)
}

/// Returns the schema for Security Group Ingress Rule
pub fn security_group_ingress_rule_schema() -> (r: ResourceSchema)
    ensures
        is_ingress_rule_schema(r),
{
    proof {
        reveal_strlit("name");
        reveal_strlit("region");
        reveal_strlit("security_group");
        reveal_strlit("protocol");
        reveal_strlit("from_port");
        reveal_strlit("to_port");
        reveal_strlit("cidr");
        assert("name"@.len() == 4 && "region"@.len() == 6 && "security_group"@.len() == 14);
        assert("protocol"@.len() == 8 && "from_port"@.len() == 9 && "to_port"@.len() == 7);
        assert("cidr"@.len() == 4);
        assert("name"@[0] == 'n' && "cidr"@[0] == 'c');
    }
    let mut r = ResourceSchema::described("security_group.ingress_rule", "An inbound rule for an AWS VPC Security Group");
    r = r.push_attribute(described("name", AttributeType::String, true, "Rule name (for identification)"));
    r = r.push_attribute(described("region", aws_region(), true, "The AWS region"));
    r = r.push_attribute(described("security_group", AttributeType::String, true, "Security Group name"));
    r = r.push_attribute(described("protocol", protocol(), true, "Protocol (tcp, udp, icmp, or -1 for all)"));
    r = r.push_attribute(described("from_port", port_number(), true, "Start of port range"));
    r = r.push_attribute(described("to_port", port_number(), true, "End of port range"));
    r = r.push_attribute(described("cidr", cidr_block(), false, "CIDR block to allow"));
    r
}

/// The security group egress rule schema.
pub open spec fn is_egress_rule_schema(r: ResourceSchema) -> bool {
    let a = r.attributes@;
    &&& schema_head(r, "security_group.egress_rule"@, "An outbound rule for an AWS VPC Security Group"@, 7)
    &&& attr_desc(a[0], "name"@, true, "Rule name (for identification)"@)
    &&& a[0].attr_type == AttributeType::String
    &&& attr_desc(a[1], "region"@, true, "The AWS region"@)
    &&& is_region_type(a[1].attr_type)
    &&& attr_desc(a[2], "security_group"@, true, "Security Group name"@)
    &&& a[2].attr_type == AttributeType::String
    &&& attr_desc(a[3], "protocol"@, true, "Protocol (tcp, udp, icmp, or -1 for all)"@)
    &&& is_protocol_type(a[3].attr_type)
    &&& attr_desc(a[4], "from_port"@, true, "Start of port range"@)
    &&& is_port_number_type(a[4].attr_type)
    &&& attr_desc(a[5], "to_port"@, true, "End of port range"@)
    &&& is_port_number_type(a[5].attr_type)
    &&& attr_desc(a[6], "cidr"@, false, "CIDR block to allow"@)
    &&& is_cidr_block_type(a[6].attr_type)
}

/// Returns the schema for Security Group Egress Rule
pub fn security_group_egress_rule_schema() -> (r: ResourceSchema)
    ensures
        is_egress_rule_schema(r),
{
    proof {
        reveal_strlit("name");
        reveal_strlit("region");
        reveal_strlit("security_group");
        reveal_strlit("protocol");
        reveal_strlit("from_port");
        reveal_strlit("to_port");
        reveal_strlit("cidr");
        assert("name"@.len() == 4 && "region"@.len() == 6 && "security_group"@.len() == 14);
        assert("protocol"@.len() == 8 && "from_port"@.len() == 9 && "to_port"@.len() == 7);
        assert("cidr"@.len() == 4);
        assert("name"@[0] == 'n' && "cidr"@[0] == 'c');
    }
    let mut r = ResourceSchema::described("security_group.egress_rule", "An outbound rule for an AWS VPC Security Group");
    r = r.push_attribute(described("name", AttributeType::String, true, "Rule name (for identification)"));
    r = r.push_attribute(described("region", aws_region(), true, "The AWS region"));
    r = r.push_attribute(described("security_group", AttributeType::String, true, "Security Group name"));
    r = r.push_attribute(described("protocol", protocol(), true, "Protocol (tcp, udp, icmp, or -1 for all)"));
    r = r.push_attribute(described("from_port", port_number(), true, "Start of port range"));
    r = r.push_attribute(described("to_port", port_number(), true, "End of port range"));
    r = r.push_attribute(described("cidr", cidr_block(), false, "CIDR block to allow"));
    r
}

/// Returns all EC2-related schemas
pub fn schemas() -> (r: Vec<ResourceSchema>)
    ensures
        r.len() == 7,
        is_vpc_schema(r@[0]),
        is_subnet_schema(r@[1]),
        is_internet_gateway_schema(r@[2]),
        is_route_table_schema(r@[3]),
        is_security_group_schema(r@[4]),
        is_ingress_rule_schema(r@[5]),
        is_egress_rule_schema(r@[6]),
{
    let mut r: Vec<ResourceSchema> = Vec::new();
    r.push(vpc_schema());
    r.push(subnet_schema());
    r.push(internet_gateway_schema());
    r.push(route_table_schema());
    r.push(security_group_schema());
    r.push(security_group_ingress_rule_schema());
    r.push(security_group_egress_rule_schema());
    r
}

} // verus!
