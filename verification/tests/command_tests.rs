use abac::codec::encode_policy;
use abac::commands::get_credential::GetCredentialCommand;
use abac::commands::node_start::StartCommand;
use abac::commands::policy::{policy_path, PolicyCommand, PolicySubcommand};
use abac::commands::project_delete_enroller::DeleteEnrollerCommand;
use abac::commands::secure_channel_listener_list::format_listener_lines;
use abac::commands::tcp_connection_list::{transport_table_rows, TransportStatus};
use abac::commands::{CloudOpts, Method, NodeOpts};
use abac::parser::parse;
use abac::policy::Policy;
use abac::types::{Action, Resource};

#[test]
fn policy_paths_name_resource_and_action() {
    let p = policy_path(&Resource::new("/foo/bar"), &Action::new("read"));
    assert_eq!(p, "/policy//foo/bar/read");
}

#[test]
fn policy_set_posts_the_encoded_policy() {
    let policy = Policy::new(parse("true").unwrap().unwrap());
    let expected = encode_policy(&policy);
    let cmd = PolicyCommand {
        subcommand: PolicySubcommand::SetPolicy {
            at: "n1".to_string(),
            resource: Resource::new("/foo"),
            action: Action::new("read"),
            policy,
        },
    };
    let (node, req) = cmd.run();
    assert_eq!(node, "n1");
    assert_eq!(req.method, Method::Post);
    assert_eq!(req.path, "/policy//foo/read");
    assert_eq!(req.body, Some(expected));
}

#[test]
fn policy_list_reads_the_resource_listing() {
    let cmd = PolicyCommand {
        subcommand: PolicySubcommand::ListPolicies {
            at: "n1".to_string(),
            resource: Resource::new("/foo"),
        },
    };
    let (_, req) = cmd.run();
    assert_eq!(req.method, Method::Get);
    assert_eq!(req.path, "/policy//foo");
    assert!(req.body.is_none());
}

#[test]
fn simple_commands_echo_their_inputs_into_plans() {
    let plan = GetCredentialCommand {
        node_opts: NodeOpts { api_node: "n1".to_string() },
        overwrite: true,
    }
    .run();
    assert_eq!(plan.node, "n1");
    assert!(plan.overwrite);

    let plan = StartCommand { node_name: "n2".to_string(), aws_kms: false }.run();
    assert_eq!(plan.node_name, "n2");
    assert!(!plan.aws_kms);

    let plan = DeleteEnrollerCommand {
        project_id: "p".to_string(),
        enroller_identity_id: "e".to_string(),
        cloud_opts: CloudOpts { route: "/cloud".to_string() },
    }
    .run();
    assert_eq!(plan.project_id, "p");
    assert_eq!(plan.enroller_identity_id, "e");
    assert_eq!(plan.route, "/cloud");
}

#[test]
fn listener_lines_carry_the_heading_and_each_address() {
    let lines = format_listener_lines(
        &"n1".to_string(),
        &vec!["a".to_string(), "b".to_string()],
    );
    assert_eq!(
        lines,
        vec![
            "Secure channel listeners for node `n1`:".to_string(),
            "  a".to_string(),
            "  b".to_string(),
        ]
    );
}

#[test]
fn transport_rows_list_id_type_mode_and_address() {
    let rows = transport_table_rows(&vec![TransportStatus {
        tt: "TCP".to_string(),
        tm: "Listen".to_string(),
        payload: "127.0.0.1:4000".to_string(),
        tid: "3".to_string(),
    }]);
    assert_eq!(rows, vec![vec![
        "3".to_string(),
        "TCP".to_string(),
        "Listen".to_string(),
        "127.0.0.1:4000".to_string(),
    ]]);
}
