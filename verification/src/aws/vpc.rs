//! VPC resource schema definitions

use vstd::prelude::*;

use crate::aws::types::{aws_region, is_region_type};
use crate::schema::{
    attr_desc, cidr, described, is_custom, schema_head, strings_view, AttributeType,
    ResourceSchema, Validator,
};
use crate::text::str_to_string;

verus! {

/// Port number type (with validation)
pub fn port_number() -> (r: AttributeType)
    ensures
        is_port_number_type(r),
{
    AttributeType::Custom {
        name: str_to_string("PortNumber"),
        base: Box::new(AttributeType::Int),
        validate: Validator::PortNumber,
        namespace: None,
    }
}

/// Whether a type is the port number type.
pub open spec fn is_port_number_type(t: AttributeType) -> bool {
    is_custom(t, "PortNumber"@, AttributeType::Int, Validator::PortNumber, None)
}

/// Whether a type is the general CIDR block type.
pub open spec fn is_cidr_type(t: AttributeType) -> bool {
    is_custom(t, "Cidr"@, AttributeType::String, Validator::Cidr, None)
}


/// The protocols of security group rules, in their accepted spellings.
pub open spec fn protocols() -> Seq<Seq<char>> {
    seq![
        "tcp"@,
        "udp"@,
        "icmp"@,
        "all"@,
        "-1"@,
        "Protocol.tcp"@,
        "Protocol.udp"@,
        "Protocol.icmp"@,
        "Protocol.all"@,
        "aws.Protocol.tcp"@,
        "aws.Protocol.udp"@,
        "aws.Protocol.icmp"@,
        "aws.Protocol.all"@,
    ]
}

/// Whether a type is the enum of the protocols of security group rules, in their accepted spellings.
pub open spec fn is_protocol_type(t: AttributeType) -> bool {
    t matches AttributeType::Enum(vs) && strings_view(vs@) == protocols()
}

/// Protocol type for security group rules
pub fn protocol() -> (r: AttributeType)
    ensures
        is_protocol_type(r),
{
    let mut v: Vec<String> = Vec::new();
    v.push(str_to_string("tcp"));
    v.push(str_to_string("udp"));
    v.push(str_to_string("icmp"));
    // All traffic (-1)
    v.push(str_to_string("all"));
    v.push(str_to_string("-1"));
    // DSL format variants
    v.push(str_to_string("Protocol.tcp"));
    v.push(str_to_string("Protocol.udp"));
    v.push(str_to_string("Protocol.icmp"));
    v.push(str_to_string("Protocol.all"));
    v.push(str_to_string("aws.Protocol.tcp"));
    v.push(str_to_string("aws.Protocol.udp"));
    v.push(str_to_string("aws.Protocol.icmp"));
    v.push(str_to_string("aws.Protocol.all"));
    proof {
        assert(strings_view(v@) =~= protocols());
    }
    AttributeType::Enum(v)
}

/// The availability zones.
pub open spec fn availability_zones() -> Seq<Seq<char>> {
    seq![
        "ap_northeast_1a"@,
        "ap_northeast_1c"@,
        "ap_northeast_1d"@,
        "ap_northeast_2a"@,
        "ap_northeast_2b"@,
        "ap_northeast_2c"@,
        "ap_northeast_2d"@,
        "ap_northeast_3a"@,
        "ap_northeast_3b"@,
        "ap_northeast_3c"@,
        "ap_southeast_1a"@,
        "ap_southeast_1b"@,
        "ap_southeast_1c"@,
        "ap_southeast_2a"@,
        "ap_southeast_2b"@,
        "ap_southeast_2c"@,
        "ap_south_1a"@,
        "ap_south_1b"@,
        "ap_south_1c"@,
        "us_east_1a"@,
        "us_east_1b"@,
        "us_east_1c"@,
        "us_east_1d"@,
        "us_east_1e"@,
        "us_east_1f"@,
        "us_east_2a"@,
        "us_east_2b"@,
        "us_east_2c"@,
        "us_west_1a"@,
        "us_west_1b"@,
        "us_west_2a"@,
        "us_west_2b"@,
        "us_west_2c"@,
        "us_west_2d"@,
        "eu_west_1a"@,
        "eu_west_1b"@,
        "eu_west_1c"@,
        "eu_west_2a"@,
        "eu_west_2b"@,
        "eu_west_2c"@,
        "eu_central_1a"@,
        "eu_central_1b"@,
        "eu_central_1c"@,
    ]
}

/// Whether a type is the enum of the availability zones.
pub open spec fn is_availability_zone_type(t: AttributeType) -> bool {
    t matches AttributeType::Enum(vs) && strings_view(vs@) == availability_zones()
}

/// Availability zone enum type
pub fn availability_zone() -> (r: AttributeType)
    ensures
        is_availability_zone_type(r),
{
    let mut v: Vec<String> = Vec::new();
    // ap-northeast-1 (Tokyo)
    v.push(str_to_string("ap_northeast_1a"));
    v.push(str_to_string("ap_northeast_1c"));
    v.push(str_to_string("ap_northeast_1d"));
    // ap-northeast-2 (Seoul)
    v.push(str_to_string("ap_northeast_2a"));
    v.push(str_to_string("ap_northeast_2b"));
    v.push(str_to_string("ap_northeast_2c"));
    v.push(str_to_string("ap_northeast_2d"));
    // ap-northeast-3 (Osaka)
    v.push(str_to_string("ap_northeast_3a"));
    v.push(str_to_string("ap_northeast_3b"));
    v.push(str_to_string("ap_northeast_3c"));
    // ap-southeast-1 (Singapore)
    v.push(str_to_string("ap_southeast_1a"));
    v.push(str_to_string("ap_southeast_1b"));
    v.push(str_to_string("ap_southeast_1c"));
    // ap-southeast-2 (Sydney)
    v.push(str_to_string("ap_southeast_2a"));
    v.push(str_to_string("ap_southeast_2b"));
    v.push(str_to_string("ap_southeast_2c"));
    // ap-south-1 (Mumbai)
    v.push(str_to_string("ap_south_1a"));
    v.push(str_to_string("ap_south_1b"));
    v.push(str_to_string("ap_south_1c"));
    // us-east-1 (N. Virginia)
    v.push(str_to_string("us_east_1a"));
    v.push(str_to_string("us_east_1b"));
    v.push(str_to_string("us_east_1c"));
    v.push(str_to_string("us_east_1d"));
    v.push(str_to_string("us_east_1e"));
    v.push(str_to_string("us_east_1f"));
    // us-east-2 (Ohio)
    v.push(str_to_string("us_east_2a"));
    v.push(str_to_string("us_east_2b"));
    v.push(str_to_string("us_east_2c"));
    // us-west-1 (N. California)
    v.push(str_to_string("us_west_1a"));
    v.push(str_to_string("us_west_1b"));
    // us-west-2 (Oregon)
    v.push(str_to_string("us_west_2a"));
    v.push(str_to_string("us_west_2b"));
    v.push(str_to_string("us_west_2c"));
    v.push(str_to_string("us_west_2d"));
    // eu-west-1 (Ireland)
    v.push(str_to_string("eu_west_1a"));
    v.push(str_to_string("eu_west_1b"));
    v.push(str_to_string("eu_west_1c"));
    // eu-west-2 (London)
    v.push(str_to_string("eu_west_2a"));
    v.push(str_to_string("eu_west_2b"));
    v.push(str_to_string("eu_west_2c"));
    // eu-central-1 (Frankfurt)
    v.push(str_to_string("eu_central_1a"));
    v.push(str_to_string("eu_central_1b"));
    v.push(str_to_string("eu_central_1c"));
    proof {
        assert(strings_view(v@) =~= availability_zones());
    }
    AttributeType::Enum(v)
}

/// The VPC schema.
pub open spec fn is_vpc_schema(r: ResourceSchema) -> bool {
    let a = r.attributes@;
    &&& schema_head(r, "vpc"@, "An AWS VPC (Virtual Private Cloud)"@, 6)
    &&& attr_desc(a[0], "id"@, false, "VPC ID (read-only, set after creation)"@)
    &&& a[0].attr_type == AttributeType::String
    &&& attr_desc(a[1], "name"@, true, "VPC name (Name tag)"@)
    &&& a[1].attr_type == AttributeType::String
    &&& attr_desc(a[2], "region"@, false, "The AWS region for the VPC (inherited from provider if not specified)"@)
    &&& is_region_type(a[2].attr_type)
    &&& attr_desc(a[3], "cidr_block"@, true, "The IPv4 CIDR block for the VPC"@)
    &&& is_cidr_type(a[3].attr_type)
    &&& attr_desc(a[4], "enable_dns_support"@, false, "Enable DNS resolution support"@)
    &&& a[4].attr_type == AttributeType::Bool
    &&& attr_desc(a[5], "enable_dns_hostnames"@, false, "Enable DNS hostnames"@)
    &&& a[5].attr_type == AttributeType::Bool
}

/// Returns the schema for VPC
pub fn vpc_schema() -> (r: ResourceSchema)
    ensures
        is_vpc_schema(r),
{
    proof {
        reveal_strlit("id");
        reveal_strlit("name");
        reveal_strlit("region");
        reveal_strlit("cidr_block");
        reveal_strlit("enable_dns_support");
        reveal_strlit("enable_dns_hostnames");
        assert("id"@.len() == 2 && "name"@.len() == 4 && "region"@.len() == 6);
        assert("cidr_block"@.len() == 10 && "enable_dns_support"@.len() == 18 && "enable_dns_hostnames"@.len() == 20);
    }
    let mut r = ResourceSchema::described("vpc", "An AWS VPC (Virtual Private Cloud)");
    r = r.push_attribute(described("id", AttributeType::String, false, "VPC ID (read-only, set after creation)"));
    r = r.push_attribute(described("name", AttributeType::String, true, "VPC name (Name tag)"));
    r = r.push_attribute(described("region", aws_region(), false, "The AWS region for the VPC (inherited from provider if not specified)"));
    r = r.push_attribute(described("cidr_block", cidr(), true, "The IPv4 CIDR block for the VPC"));
    r = r.push_attribute(described("enable_dns_support", AttributeType::Bool, false, "Enable DNS resolution support"));
    r = r.push_attribute(described("enable_dns_hostnames", AttributeType::Bool, false, "Enable DNS hostnames"));
    r
}

/// The subnet schema.
pub open spec fn is_subnet_schema(r: ResourceSchema) -> bool {
    let a = r.attributes@;
    &&& schema_head(r, "subnet"@, "An AWS VPC Subnet"@, 6)
    &&& attr_desc(a[0], "id"@, false, "Subnet ID (read-only, set after creation)"@)
    &&& a[0].attr_type == AttributeType::String
    &&& attr_desc(a[1], "name"@, true, "Subnet name (Name tag)"@)
    &&& a[1].attr_type == AttributeType::String
    &&& attr_desc(a[2], "region"@, false, "The AWS region for the subnet (inherited from provider if not specified)"@)
    &&& is_region_type(a[2].attr_type)
    &&& attr_desc(a[3], "vpc_id"@, true, "VPC ID to create the subnet in"@)
    &&& a[3].attr_type == AttributeType::String
    &&& attr_desc(a[4], "cidr_block"@, true, "The IPv4 CIDR block for the subnet"@)
    &&& is_cidr_type(a[4].attr_type)
    &&& attr_desc(a[5], "availability_zone"@, false, "The availability zone for the subnet"@)
    &&& is_availability_zone_type(a[5].attr_type)
}

/// Returns the schema for Subnet
pub fn subnet_schema() -> (r: ResourceSchema)
    ensures
        is_subnet_schema(r),
{
    proof {
        reveal_strlit("id");
        reveal_strlit("name");
        reveal_strlit("region");
        reveal_strlit("vpc_id");
        reveal_strlit("cidr_block");
        reveal_strlit("availability_zone");
        assert("id"@.len() == 2 && "name"@.len() == 4 && "region"@.len() == 6);
        assert("vpc_id"@.len() == 6 && "cidr_block"@.len() == 10 && "availability_zone"@.len() == 17);
        assert("region"@[0] == 'r' && "vpc_id"@[0] == 'v');
    }
    let mut r = ResourceSchema::described("subnet", "An AWS VPC Subnet");
    r = r.push_attribute(described("id", AttributeType::String, false, "Subnet ID (read-only, set after creation)"));
    r = r.push_attribute(described("name", AttributeType::String, true, "Subnet name (Name tag)"));
    r = r.push_attribute(described("region", aws_region(), false, "The AWS region for the subnet (inherited from provider if not specified)"));
    r = r.push_attribute(described("vpc_id", AttributeType::String, true, "VPC ID to create the subnet in"));
    r = r.push_attribute(described("cidr_block", cidr(), true, "The IPv4 CIDR block for the subnet"));
    r = r.push_attribute(described("availability_zone", availability_zone(), false, "The availability zone for the subnet"));
    r
}

/// The internet gateway schema.
pub open spec fn is_internet_gateway_schema(r: ResourceSchema) -> bool {
    let a = r.attributes@;
    &&& schema_head(r, "internet_gateway"@, "An AWS Internet Gateway"@, 4)
    &&& attr_desc(a[0], "id"@, false, "Internet Gateway ID (read-only, set after creation)"@)
    &&& a[0].attr_type == AttributeType::String
    &&& attr_desc(a[1], "name"@, true, "Internet Gateway name (Name tag)"@)
    &&& a[1].attr_type == AttributeType::String
    &&& attr_desc(a[2], "region"@, false, "The AWS region for the Internet Gateway (inherited from provider if not specified)"@)
    &&& is_region_type(a[2].attr_type)
    &&& attr_desc(a[3], "vpc_id"@, false, "VPC ID to attach the Internet Gateway to"@)
    &&& a[3].attr_type == AttributeType::String
}

/// Returns the schema for Internet Gateway
pub fn internet_gateway_schema() -> (r: ResourceSchema)
    ensures
        is_internet_gateway_schema(r),
{
    proof {
        reveal_strlit("id");
        reveal_strlit("name");
        reveal_strlit("region");
        reveal_strlit("vpc_id");
        assert("id"@.len() == 2 && "name"@.len() == 4 && "region"@.len() == 6);
        assert("vpc_id"@.len() == 6);
        assert("region"@[0] == 'r' && "vpc_id"@[0] == 'v');
    }
    let mut r = ResourceSchema::described("internet_gateway", "An AWS Internet Gateway");
    r = r.push_attribute(described("id", AttributeType::String, false, "Internet Gateway ID (read-only, set after creation)"));
    r = r.push_attribute(described("name", AttributeType::String, true, "Internet Gateway name (Name tag)"));
    r = r.push_attribute(described("region", aws_region(), false, "The AWS region for the Internet Gateway (inherited from provider if not specified)"));
    r = r.push_attribute(described("vpc_id", AttributeType::String, false, "VPC ID to attach the Internet Gateway to"));
    r
}

/// The route table schema.
pub open spec fn is_route_table_schema(r: ResourceSchema) -> bool {
    let a = r.attributes@;
    &&& schema_head(r, "route_table"@, "An AWS VPC Route Table"@, 4)
    &&& attr_desc(a[0], "id"@, false, "Route Table ID (read-only, set after creation)"@)
    &&& a[0].attr_type == AttributeType::String
    &&& attr_desc(a[1], "name"@, true, "Route Table name (Name tag)"@)
    &&& a[1].attr_type == AttributeType::String
    &&& attr_desc(a[2], "region"@, false, "The AWS region for the Route Table (inherited from provider if not specified)"@)
    &&& is_region_type(a[2].attr_type)
    &&& attr_desc(a[3], "vpc_id"@, true, "VPC ID for the Route Table"@)
    &&& a[3].attr_type == AttributeType::String
}

/// Returns the schema for Route Table
pub fn route_table_schema() -> (r: ResourceSchema)
    ensures
        is_route_table_schema(r),
{
    proof {
        reveal_strlit("id");
        reveal_strlit("name");
        reveal_strlit("region");
        reveal_strlit("vpc_id");
        assert("id"@.len() == 2 && "name"@.len() == 4 && "region"@.len() == 6);
        assert("vpc_id"@.len() == 6);
        assert("region"@[0] == 'r' && "vpc_id"@[0] == 'v');
    }
    let mut r = ResourceSchema::described("route_table", "An AWS VPC Route Table");
    r = r.push_attribute(described("id", AttributeType::String, false, "Route Table ID (read-only, set after creation)"));
    r = r.push_attribute(described("name", AttributeType::String, true, "Route Table name (Name tag)"));
    r = r.push_attribute(described("region", aws_region(), false, "The AWS region for the Route Table (inherited from provider if not specified)"));
    r = r.push_attribute(described("vpc_id", AttributeType::String, true, "VPC ID for the Route Table"));
    r
}

/// The route schema.
pub open spec fn is_route_schema(r: ResourceSchema) -> bool {
    let a = r.attributes@;
    &&& schema_head(r, "route"@, "A route in an AWS VPC Route Table"@, 6)
    &&& attr_desc(a[0], "name"@, true, "Route name (for identification)"@)
    &&& a[0].attr_type == AttributeType::String
    &&& attr_desc(a[1], "region"@, false, "The AWS region (inherited from provider if not specified)"@)
    &&& is_region_type(a[1].attr_type)
    &&& attr_desc(a[2], "route_table_id"@, true, "Route Table ID"@)
    &&& a[2].attr_type == AttributeType::String
    &&& attr_desc(a[3], "destination_cidr_block"@, true, "Destination CIDR block"@)
    &&& is_cidr_type(a[3].attr_type)
    &&& attr_desc(a[4], "gateway_id"@, false, "Internet Gateway ID (for internet-bound traffic)"@)
    &&& a[4].attr_type == AttributeType::String
    &&& attr_desc(a[5], "nat_gateway_id"@, false, "NAT Gateway ID"@)
    &&& a[5].attr_type == AttributeType::String
}

/// Returns the schema for Route
pub fn route_schema() -> (r: ResourceSchema)
    ensures
        is_route_schema(r),
{
    proof {
        reveal_strlit("name");
        reveal_strlit("region");
        reveal_strlit("route_table_id");
        reveal_strlit("destination_cidr_block");
        reveal_strlit("gateway_id");
        reveal_strlit("nat_gateway_id");
        assert("name"@.len() == 4 && "region"@.len() == 6 && "route_table_id"@.len() == 14);
        assert("destination_cidr_block"@.len() == 22 && "gateway_id"@.len() == 10 && "nat_gateway_id"@.len() == 14);
        assert("route_table_id"@[0] == 'r' && "nat_gateway_id"@[0] == 'n');
    }
    let mut r = ResourceSchema::described("route", "A route in an AWS VPC Route Table");
    r = r.push_attribute(described("name", AttributeType::String, true, "Route name (for identification)"));
    r = r.push_attribute(described("region", aws_region(), false, "The AWS region (inherited from provider if not specified)"));
    r = r.push_attribute(described("route_table_id", AttributeType::String, true, "Route Table ID"));
    r = r.push_attribute(described("destination_cidr_block", cidr(), true, "Destination CIDR block"));
    r = r.push_attribute(described("gateway_id", AttributeType::String, false, "Internet Gateway ID (for internet-bound traffic)"));
    r = r.push_attribute(described("nat_gateway_id", AttributeType::String, false, "NAT Gateway ID"));
    r
}

/// The security group schema.
pub open spec fn is_security_group_schema(r: ResourceSchema) -> bool {
    let a = r.attributes@;
    &&& schema_head(r, "security_group"@, "An AWS VPC Security Group"@, 5)
    &&& attr_desc(a[0], "id"@, false, "Security Group ID (read-only, set after creation)"@)
    &&& a[0].attr_type == AttributeType::String
    &&& attr_desc(a[1], "name"@, true, "Security Group name (Name tag)"@)
    &&& a[1].attr_type == AttributeType::String
    &&& attr_desc(a[2], "region"@, false, "The AWS region for the Security Group (inherited from provider if not specified)"@)
    &&& is_region_type(a[2].attr_type)
    &&& attr_desc(a[3], "vpc_id"@, true, "VPC ID for the Security Group"@)
    &&& a[3].attr_type == AttributeType::String
    &&& attr_desc(a[4], "description"@, false, "Description of the Security Group"@)
    &&& a[4].attr_type == AttributeType::String
}

/// Returns the schema for Security Group
pub fn security_group_schema() -> (r: ResourceSchema)
    ensures
        is_security_group_schema(r),
{
    proof {
        reveal_strlit("id");
        reveal_strlit("name");
        reveal_strlit("region");
        reveal_strlit("vpc_id");
        reveal_strlit("description");
        assert("id"@.len() == 2 && "name"@.len() == 4 && "region"@.len() == 6);
        assert("vpc_id"@.len() == 6 && "description"@.len() == 11);
        assert("region"@[0] == 'r' && "vpc_id"@[0] == 'v');
    }
    let mut r = ResourceSchema::described("security_group", "An AWS VPC Security Group");
    r = r.push_attribute(described("id", AttributeType::String, false, "Security Group ID (read-only, set after creation)"));
    r = r.push_attribute(described("name", AttributeType::String, true, "Security Group name (Name tag)"));
    r = r.push_attribute(described("region", aws_region(), false, "The AWS region for the Security Group (inherited from provider if not specified)"));
    r = r.push_attribute(described("vpc_id", AttributeType::String, true, "VPC ID for the Security Group"));
    r = r.push_attribute(described("description", AttributeType::String, false, "Description of the Security Group"));
    r
}

/// The security group ingress rule schema.
pub open spec fn is_ingress_rule_schema(r: ResourceSchema) -> bool {
    let a = r.attributes@;
    &&& schema_head(r, "security_group.ingress_rule"@, "An inbound rule for an AWS VPC Security Group"@, 8)
    &&& attr_desc(a[0], "id"@, false, "Security Group Rule ID (read-only, set after creation)"@)
    &&& a[0].attr_type == AttributeType::String
    &&& attr_desc(a[1], "name"@, true, "Rule name (for identification)"@)
    &&& a[1].attr_type == AttributeType::String
    &&& attr_desc(a[2], "region"@, false, "The AWS region (inherited from provider if not specified)"@)
    &&& is_region_type(a[2].attr_type)
    &&& attr_desc(a[3], "security_group_id"@, true, "Security Group ID"@)
    &&& a[3].attr_type == AttributeType::String
    &&& attr_desc(a[4], "protocol"@, true, "Protocol (tcp, udp, icmp, or -1 for all)"@)
    &&& is_protocol_type(a[4].attr_type)
    &&& attr_desc(a[5], "from_port"@, true, "Start of port range"@)
    &&& is_port_number_type(a[5].attr_type)
    &&& attr_desc(a[6], "to_port"@, true, "End of port range"@)
    &&& is_port_number_type(a[6].attr_type)
    &&& attr_desc(a[7], "cidr_blocks"@, false, "List of CIDR blocks to allow"@)
    &&& (a[7].attr_type matches AttributeType::List(inner) && is_cidr_type(*inner))
}

/// Returns the schema for Security Group Ingress Rule
pub fn security_group_ingress_rule_schema() -> (r: ResourceSchema)
    ensures
        is_ingress_rule_schema(r),
{
    proof {
        reveal_strlit("id");
        reveal_strlit("name");
        reveal_strlit("region");
        reveal_strlit("security_group_id");
        reveal_strlit("protocol");
        reveal_strlit("from_port");
        reveal_strlit("to_port");
        reveal_strlit("cidr_blocks");
        assert("id"@.len() == 2 && "name"@.len() == 4 && "region"@.len() == 6);
        assert("security_group_id"@.len() == 17 && "protocol"@.len() == 8 && "from_port"@.len() == 9);
        assert("to_port"@.len() == 7 && "cidr_blocks"@.len() == 11);
    }
    let mut r = ResourceSchema::described("security_group.ingress_rule", "An inbound rule for an AWS VPC Security Group");
    r = r.push_attribute(described("id", AttributeType::String, false, "Security Group Rule ID (read-only, set after creation)"));
    r = r.push_attribute(described("name", AttributeType::String, true, "Rule name (for identification)"));
    r = r.push_attribute(described("region", aws_region(), false, "The AWS region (inherited from provider if not specified)"));
    r = r.push_attribute(described("security_group_id", AttributeType::String, true, "Security Group ID"));
    r = r.push_attribute(described("protocol", protocol(), true, "Protocol (tcp, udp, icmp, or -1 for all)"));
    r = r.push_attribute(described("from_port", port_number(), true, "Start of port range"));
    r = r.push_attribute(described("to_port", port_number(), true, "End of port range"));
    r = r.push_attribute(described("cidr_blocks", AttributeType::List(Box::new(cidr())), false, "List of CIDR blocks to allow"));
    r
}

/// The security group egress rule schema.
pub open spec fn is_egress_rule_schema(r: ResourceSchema) -> bool {
    let a = r.attributes@;
    &&& schema_head(r, "security_group.egress_rule"@, "An outbound rule for an AWS VPC Security Group"@, 8)
    &&& attr_desc(a[0], "id"@, false, "Security Group Rule ID (read-only, set after creation)"@)
    &&& a[0].attr_type == AttributeType::String
    &&& attr_desc(a[1], "name"@, true, "Rule name (for identification)"@)
    &&& a[1].attr_type == AttributeType::String
    &&& attr_desc(a[2], "region"@, false, "The AWS region (inherited from provider if not specified)"@)
    &&& is_region_type(a[2].attr_type)
    &&& attr_desc(a[3], "security_group_id"@, true, "Security Group ID"@)
    &&& a[3].attr_type == AttributeType::String
    &&& attr_desc(a[4], "protocol"@, true, "Protocol (tcp, udp, icmp, or -1 for all)"@)
    &&& is_protocol_type(a[4].attr_type)
    &&& attr_desc(a[5], "from_port"@, true, "Start of port range"@)
    &&& is_port_number_type(a[5].attr_type)
    &&& attr_desc(a[6], "to_port"@, true, "End of port range"@)
    &&& is_port_number_type(a[6].attr_type)
    &&& attr_desc(a[7], "cidr_blocks"@, false, "List of CIDR blocks to allow"@)
    &&& (a[7].attr_type matches AttributeType::List(inner) && is_cidr_type(*inner))
}

/// Returns the schema for Security Group Egress Rule
pub fn security_group_egress_rule_schema() -> (r: ResourceSchema)
    ensures
        is_egress_rule_schema(r),
{
    proof {
        reveal_strlit("id");
        reveal_strlit("name");
        reveal_strlit("region");
        reveal_strlit("security_group_id");
        reveal_strlit("protocol");
        reveal_strlit("from_port");
        reveal_strlit("to_port");
        reveal_strlit("cidr_blocks");
        assert("id"@.len() == 2 && "name"@.len() == 4 && "region"@.len() == 6);
        assert("security_group_id"@.len() == 17 && "protocol"@.len() == 8 && "from_port"@.len() == 9);
        assert("to_port"@.len() == 7 && "cidr_blocks"@.len() == 11);
    }
    let mut r = ResourceSchema::described("security_group.egress_rule", "An outbound rule for an AWS VPC Security Group");
    r = r.push_attribute(described("id", AttributeType::String, false, "Security Group Rule ID (read-only, set after creation)"));
    r = r.push_attribute(described("name", AttributeType::String, true, "Rule name (for identification)"));
    r = r.push_attribute(described("region", aws_region(), false, "The AWS region (inherited from provider if not specified)"));
    r = r.push_attribute(described("security_group_id", AttributeType::String, true, "Security Group ID"));
    r = r.push_attribute(described("protocol", protocol(), true, "Protocol (tcp, udp, icmp, or -1 for all)"));
    r = r.push_attribute(described("from_port", port_number(), true, "Start of port range"));
    r = r.push_attribute(described("to_port", port_number(), true, "End of port range"));
    r = r.push_attribute(described("cidr_blocks", AttributeType::List(Box::new(cidr())), false, "List of CIDR blocks to allow"));
    r
}

/// Whether a list holds the VPC-related schemas, in order.
pub open spec fn are_vpc_schemas(r: Seq<ResourceSchema>) -> bool {
    &&& r.len() == 8
    &&& is_vpc_schema(r[0])
    &&& is_subnet_schema(r[1])
    &&& is_internet_gateway_schema(r[2])
    &&& is_route_table_schema(r[3])
    &&& is_route_schema(r[4])
    &&& is_security_group_schema(r[5])
    &&& is_ingress_rule_schema(r[6])
    &&& is_egress_rule_schema(r[7])
}

/// Returns all VPC-related schemas
pub fn schemas() -> (r: Vec<ResourceSchema>)
    ensures
        are_vpc_schemas(r@),
{
    let mut r: Vec<ResourceSchema> = Vec::new();
    r.push(vpc_schema());
    r.push(subnet_schema());
    r.push(internet_gateway_schema());
    r.push(route_table_schema());
    r.push(route_schema());
    r.push(security_group_schema());
    r.push(security_group_ingress_rule_schema());
    r.push(security_group_egress_rule_schema());
    r
}

} // verus!
