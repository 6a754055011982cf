use holycontainer::config::{ContainerConfig, ContainerState};
use holycontainer::error::ContainerError;
use holycontainer::lifecycle::{
    check_create, check_delete, check_stop, mark_created, mark_started, mark_stopped, prepare_start,
    require_exists, rootfs_short, status_header, status_row, status_rule, Platform,
};

fn invalid_state(e: ContainerError) -> (String, String, String) {
    match e {
        ContainerError::InvalidState { name, current, expected } => (name, current, expected),
        other => panic!("{:?}", other),
    }
}

#[test]
fn lifecycle_start_stop_delete() {
    let mut c = ContainerConfig::new("box", "/rootfs");
    mark_created(&mut c);
    assert_eq!(c.state, ContainerState::Created);
    assert!(check_delete(&c, "box").is_ok());
    let (n, cur, exp) = invalid_state(check_stop(&c, "box").err().unwrap());
    assert_eq!((n.as_str(), cur.as_str(), exp.as_str()), ("box", "created", "running"));

    let env = prepare_start(&mut c, "box", None, Platform::Linux).unwrap();
    assert_eq!(c.command, vec!["/bin/sh".to_string()]);
    assert!(env.iter().any(|(k, v)| k == "PATH" && v == "/usr/local/sbin:/usr/local/bin:/usr/sbin:/usr/bin:/sbin:/bin"));
    mark_started(&mut c, 4242);
    assert_eq!(c.state, ContainerState::Running);
    assert_eq!(c.pid, 4242);

    // a running container cannot be started again or deleted
    let (_, cur, exp) = invalid_state(prepare_start(&mut c, "box", None, Platform::Linux).err().unwrap());
    assert_eq!((cur.as_str(), exp.as_str()), ("running", "created or stopped"));
    assert!(matches!(check_delete(&c, "box"), Err(ContainerError::InvalidState { .. })));
    assert_eq!(check_stop(&c, "box").unwrap(), 4242);

    mark_stopped(&mut c);
    assert_eq!(c.state, ContainerState::Stopped);
    assert_eq!(c.pid, 0);
    assert!(check_delete(&c, "box").is_ok());
    assert!(check_stop(&c, "box").is_err());
}

#[test]
fn start_environment_defaults() {
    let mut c = ContainerConfig::new("w", "/r");
    c.env.insert("TERM".to_string(), "dumb".to_string());
    c.env.insert("A".to_string(), "1".to_string());
    let env = prepare_start(&mut c, "w", Some(vec!["app".to_string(), "-x".to_string()]), Platform::Windows).unwrap();
    assert_eq!(c.command, vec!["app".to_string(), "-x".to_string()]);
    assert_eq!(
        env,
        vec![
            ("A".to_string(), "1".to_string()),
            ("TERM".to_string(), "dumb".to_string()),
            ("USERPROFILE".to_string(), "C:\\Users\\ContainerUser".to_string()),
            ("HOSTNAME".to_string(), "w".to_string()),
        ]
    );
    let mut d = ContainerConfig::new("d", "/r");
    prepare_start(&mut d, "d", None, Platform::Windows).unwrap();
    assert_eq!(d.command, vec!["cmd.exe".to_string()]);
}

#[test]
fn create_checks() {
    assert!(matches!(require_exists("x", false), Err(ContainerError::NotFound(n)) if n == "x"));
    assert!(require_exists("x", true).is_ok());
    match check_create("x", "/r", true, true).err().unwrap() {
        ContainerError::Config(m) => assert_eq!(m, "container 'x' already exists"),
        other => panic!("{:?}", other),
    }
    match check_create("x", "/r", false, false).err().unwrap() {
        ContainerError::Filesystem(m) => assert_eq!(m, "rootfs does not exist: /r"),
        other => panic!("{:?}", other),
    }
    assert!(check_create("x", "/r", false, true).is_ok());
}

#[test]
fn status_table_rows() {
    assert_eq!(status_rule(), "-".repeat(90));
    assert_eq!(status_header(), format!("{:<20} {:<12} {:<8} {:<30} {}", "NAME", "STATE", "PID", "ROOTFS", "COMMAND"));
    let mut c = ContainerConfig::new("web", "/var/lib/holycontainer/images/ubuntu_22.04/rootfs");
    c.state = ContainerState::Running;
    c.pid = 12;
    c.command = vec!["sleep".to_string(), "10".to_string()];
    assert_eq!(
        status_row(&c, false),
        format!("{:<20} {:<12} {:<8} {:<30} {}", "web", "dead", "12", "...mages/ubuntu_22.04/rootfs", "sleep 10")
    );
    let d = ContainerConfig::new("db", "/short");
    assert_eq!(status_row(&d, false), format!("{:<20} {:<12} {:<8} {:<30} {}", "db", "created", "-", "/short", "<none>"));
    assert_eq!(rootfs_short("/a/b"), "/a/b");
    assert_eq!(rootfs_short("0123456789012345678901234567890"), "...6789012345678901234567890");
}
