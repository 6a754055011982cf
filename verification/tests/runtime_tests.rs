use holycontainer::cli::{
    command_after_dashes, parse_command, parse_create_args, parse_dashboard_args, parse_exec_args,
    parse_stack_args, parse_start_args, parse_vm_boot_args, run_container_name, Command,
};
use holycontainer::compose::{
    parse_stack_string, service_config, service_container_name, service_rootfs, service_status_row,
    stack_status_header, start_command_of, teardown_order, topological_sort, RootfsSource, ServiceDef,
};
use holycontainer::config::{container_state_dir, images_dir, parse_memory, ContainerConfig, ContainerState};
use holycontainer::envmap::EnvMap;
use holycontainer::error::ContainerError;
use holycontainer::overlay::{LayerStore, OverlayMount};

fn strings(v: &[&str]) -> Vec<String> {
    v.iter().map(|s| s.to_string()).collect()
}

#[test]
fn config_serialize_then_deserialize() {
    let mut c = ContainerConfig::new("web", "/srv/rootfs");
    c.command = strings(&["nginx", "-g", "daemon off;"]);
    c.env.insert("PATH".to_string(), "/bin".to_string());
    c.env.insert("A".to_string(), "x=y".to_string());
    c.limits.memory_bytes = 268435456;
    c.limits.cpu_percent = 50;
    c.network.port_mappings = vec![(8080, 80)];
    c.state = ContainerState::Running;
    c.pid = 99;
    let text = c.serialize();
    assert_eq!(
        text,
        "name=web\nrootfs=/srv/rootfs\nhostname=web\nstate=running\npid=99\nworkdir=/\nmemory_bytes=268435456\ncpu_percent=50\nmax_pids=0\nnetwork_enabled=true\nip_address=10.0.0.2\nbridge_ip=10.0.0.1\nsubnet_bits=24\nport=8080:80\nenv.A=x=y\nenv.PATH=/bin\ncmd=nginx\ncmd=-g\ncmd=daemon off;"
    );
    let back = ContainerConfig::deserialize(&text).unwrap();
    assert_eq!(back.serialize(), text);
    assert_eq!(back.command, c.command);
    assert_eq!(back.env.get("A").map(|s| s.as_str()), Some("x=y"));
    assert_eq!(back.state, ContainerState::Running);
}

#[test]
fn config_deserialize_errors() {
    assert!(matches!(ContainerConfig::deserialize("rootfs=/r"), Err(ContainerError::Config(_))));
    assert!(matches!(ContainerConfig::deserialize("name=a\npid=x"), Err(ContainerError::Config(_))));
    assert!(matches!(ContainerConfig::deserialize("name=a\nno equals"), Err(ContainerError::Config(_))));
    let c = ContainerConfig::deserialize("# comment\n\nname=a\nunknown=1").unwrap();
    assert_eq!(c.name, "a");
    assert_eq!(ContainerState::from_str("stopped"), Some(ContainerState::Stopped));
    assert_eq!(ContainerState::from_str("gone"), None);
    assert_eq!(ContainerState::Created.as_str(), "created");
}

#[test]
fn memory_sizes_and_dirs() {
    assert_eq!(parse_memory("512M").unwrap(), 536870912);
    assert_eq!(parse_memory(" 2g ").unwrap(), 2147483648);
    assert_eq!(parse_memory("1024").unwrap(), 1024);
    assert_eq!(parse_memory("0").unwrap(), 0);
    assert_eq!(parse_memory("").unwrap(), 0);
    assert!(matches!(parse_memory("12X"), Err(ContainerError::Config(_))));
    assert_eq!(container_state_dir("/var/lib/holycontainer", "web"), "/var/lib/holycontainer/containers/web");
    assert_eq!(images_dir("/var/lib/holycontainer"), "/var/lib/holycontainer/images");
}

const STACK: &str = "\
[stack]
name = app

# the database
[service.db]
image = postgres:16
memory = 512M
env.POSTGRES_PASSWORD = secret

[service.web]
image = nginx:latest
ports = 8080:80, 0:1, bad
depends_on = db
command = nginx -g daemon
";

#[test]
fn stack_parse_orders_by_dependencies() {
    let s = parse_stack_string(STACK).unwrap();
    assert_eq!(s.name, "app");
    let names: Vec<&str> = s.services.iter().map(|x| x.name.as_str()).collect();
    assert_eq!(names, vec!["db", "web"]);
    let web = &s.services[1];
    assert_eq!(web.ports, vec![(8080, 80)]);
    assert_eq!(web.command, strings(&["nginx", "-g", "daemon"]));
    assert_eq!(s.services[0].env.get("POSTGRES_PASSWORD").map(|v| v.as_str()), Some("secret"));
}

#[test]
fn stack_dependency_errors() {
    let cyc = "[stack]\nname = c\n[service.a]\ndepends_on = b\n[service.b]\ndepends_on = a\n";
    assert!(parse_stack_string(cyc).is_err());
    let unknown = "[stack]\nname = u\n[service.a]\ndepends_on = zzz\n";
    assert!(parse_stack_string(unknown).is_err());
    let mut a = ServiceDef::new("a");
    a.depends_on = vec!["b".to_string()];
    let b = ServiceDef::new("b");
    let sorted = topological_sort(&vec![a, b]).unwrap();
    assert_eq!(sorted[0].name, "b");
    assert_eq!(sorted[1].name, "a");
}

#[test]
fn stack_service_containers() {
    let s = parse_stack_string(STACK).unwrap();
    let db = &s.services[0];
    assert_eq!(service_container_name("app", "db"), "app_db");
    match service_rootfs(db) {
        RootfsSource::Pull(i) => assert_eq!(i, "postgres:16"),
        _ => panic!("expected a pull"),
    }
    let c = service_config("app", db, "/images/pg/rootfs");
    assert_eq!(c.name, "app_db");
    assert_eq!(c.rootfs, "/images/pg/rootfs");
    assert_eq!(c.limits.memory_bytes, 536870912);
    assert_eq!(c.workdir, "/");
    assert!(start_command_of(&c).is_none());
    let web = service_config("app", &s.services[1], "/r");
    assert_eq!(web.network.port_mappings, vec![(8080, 80)]);
    assert_eq!(start_command_of(&web).unwrap(), strings(&["nginx", "-g", "daemon"]));
    assert_eq!(web.limits.memory_bytes, 268435456);
    assert_eq!(teardown_order(&s), strings(&["app_web", "app_db"]));
    let mut bare = ServiceDef::new("x");
    assert!(matches!(service_rootfs(&bare), RootfsSource::Missing));
    bare.rootfs = Some("/r".to_string());
    assert!(matches!(service_rootfs(&bare), RootfsSource::Path(p) if p == "/r"));
    assert_eq!(stack_status_header(), format!("{:<25} {:<15} {:<10} {}", "SERVICE", "IMAGE", "STATUS", "PORTS"));
    assert_eq!(
        service_status_row(&s.services[1], Some(ContainerState::Running)),
        format!("{:<25} {:<15} {:<10} {}", "web", "nginx:latest", "running", "8080:80")
    );
    assert_eq!(service_status_row(&bare, None), format!("{:<25} {:<15} {:<10} {}", "x", "/r", "not created", ""));
}

#[test]
fn cli_create_and_start() {
    let o = parse_create_args(&strings(&["box", "--rootfs", "/r", "--memory", "64M", "--cpus", "50", "--env", "A=1", "-p", "8080:80"])).unwrap();
    assert_eq!(o.name, "box");
    assert_eq!(o.rootfs.as_deref(), Some("/r"));
    assert_eq!(o.memory, 67108864);
    assert_eq!(o.cpus, 50);
    assert_eq!(o.env, vec![("A".to_string(), "1".to_string())]);
    assert_eq!(o.ports, vec![(8080, 80)]);
    assert!(parse_create_args(&strings(&[])).is_err());
    assert!(parse_create_args(&strings(&["box", "--bogus"])).is_err());
    let (n, c) = parse_start_args(&strings(&["box", "--", "sh", "-c", "x"])).unwrap();
    assert_eq!(n, "box");
    assert_eq!(c.unwrap(), strings(&["sh", "-c", "x"]));
    assert!(parse_start_args(&strings(&["box"])).unwrap().1.is_none());
    assert_eq!(command_after_dashes(&strings(&["img", "--", "ls"])).unwrap(), strings(&["ls"]));
    assert!(command_after_dashes(&strings(&["img"])).is_none());
    assert_eq!(run_container_name("library/ubuntu:22.04", 17), "run_library_ubuntu_22_04_17");
}

#[test]
fn cli_other_commands() {
    assert_eq!(parse_command(&"rm".to_string(), false), Command::Delete);
    assert_eq!(parse_command(&"ui".to_string(), false), Command::Dashboard);
    assert_eq!(parse_command(&"vm-boot".to_string(), false), Command::Unknown);
    assert_eq!(parse_command(&"vm-boot".to_string(), true), Command::VmBoot);
    assert_eq!(parse_command(&"-v".to_string(), false), Command::Version);
    assert_eq!(parse_stack_args(&strings(&["-f", "stack.toml"]), "up").unwrap(), "stack.toml");
    assert!(parse_stack_args(&strings(&["-f"]), "up").is_err());
    assert!(parse_stack_args(&strings(&[]), "down").is_err());
    assert_eq!(parse_dashboard_args(&strings(&[])).unwrap(), 8080);
    assert_eq!(parse_dashboard_args(&strings(&["-p", "9000"])).unwrap(), 9000);
    assert!(parse_dashboard_args(&strings(&["-p", "70000"])).is_err());
    let (n, c) = parse_exec_args(&strings(&["box", "ls", "-l"])).unwrap();
    assert_eq!((n.as_str(), c), ("box", strings(&["ls", "-l"])));
    let (_, c) = parse_exec_args(&strings(&["box", "x", "--", "ls"])).unwrap();
    assert_eq!(c, strings(&["ls"]));
    assert!(parse_exec_args(&strings(&["box"])).is_err());
    let vm = parse_vm_boot_args(&strings(&["--kernel", "bzImage", "--memory", "512"])).unwrap();
    assert_eq!((vm.kernel.as_str(), vm.initrd.is_none(), vm.cmdline.as_str(), vm.mem_mb), ("bzImage", true, "console=ttyS0 earlyprintk=serial", 512));
    assert!(parse_vm_boot_args(&strings(&["--initrd", "i"])).is_err());
    assert!(parse_vm_boot_args(&strings(&["--kernel", "k", "--memory", "lots"])).is_err());
}

#[test]
fn overlay_options() {
    let o = OverlayMount::new(strings(&["/l1", "/l2"]), "/u".to_string(), "/w".to_string(), "/m".to_string());
    assert_eq!(o.mount_options(), "lowerdir=/l2:/l1,upperdir=/u,workdir=/w");
    let store = LayerStore::new("/var/lib/hc".to_string());
    assert_eq!(store.layer_dir("sha256:abc"), "/var/lib/hc/layers/sha256_abc");
    let m = store.overlay_for("web", &strings(&["sha256:a", "sha256:b"]));
    assert_eq!(m.lower_dirs, strings(&["/var/lib/hc/layers/sha256_a", "/var/lib/hc/layers/sha256_b"]));
}

#[test]
fn env_map_keeps_names_sorted() {
    let mut m = EnvMap::new();
    m.insert("b".to_string(), "2".to_string());
    m.insert("a".to_string(), "1".to_string());
    m.insert("b".to_string(), "3".to_string());
    assert_eq!(m.len(), 2);
    let (k0, v0) = m.entry(0);
    assert_eq!((k0.as_str(), v0.as_str()), ("a", "1"));
    assert_eq!(m.get("b").map(|s| s.as_str()), Some("3"));
    assert!(m.get("c").is_none());
}

fn config_message<T: std::fmt::Debug>(r: Result<T, ContainerError>) -> String {
    match r {
        Err(ContainerError::Config(m)) => m,
        other => panic!("expected a configuration error, got {:?}", other),
    }
}

#[test]
fn error_messages_name_the_bad_input() {
    assert_eq!(config_message(parse_create_args(&strings(&["box", "--bogus"]))), "unknown option: --bogus");
    assert_eq!(config_message(parse_create_args(&strings(&["box", "-m"]))), "--memory requires a value");
    assert_eq!(config_message(parse_create_args(&strings(&["box", "--cpus", "x"]))), "invalid cpu value: x");
    assert_eq!(config_message(parse_create_args(&strings(&["box", "-p", "80:y"]))), "invalid port: y");
    assert_eq!(config_message(parse_memory(" 12X ")), "invalid memory value: 12X");
    assert_eq!(config_message(parse_stack_args(&strings(&[]), "down")), "usage: holycontainer down -f <stack.toml>");
    assert_eq!(config_message(parse_stack_args(&strings(&["-f"]), "up")), "-f requires a file path");
    assert_eq!(config_message(parse_dashboard_args(&strings(&["-p"]))), "--port requires a value");
    assert_eq!(config_message(parse_vm_boot_args(&strings(&["--x"]))), "unknown option: --x");
    assert_eq!(config_message(parse_vm_boot_args(&strings(&["--initrd"]))), "--initrd requires a path");
    assert_eq!(config_message(ContainerConfig::deserialize("name=a\npid=x")), "invalid pid: x");
    assert_eq!(config_message(ContainerConfig::deserialize("name=a\nno equals")), "invalid line: no equals");
    let unknown = "[stack]\nname = u\n[service.a]\ndepends_on = zzz\n";
    assert_eq!(config_message(parse_stack_string(unknown)), "service 'a' depends on unknown service 'zzz'");
}

#[test]
fn stack_keeps_health_checks() {
    let content = "[service.web]\nimage = nginx\nhealthcheck = curl -f http://localhost/\n";
    let s = parse_stack_string(content).unwrap();
    let h = s.services[0].healthcheck.as_ref().unwrap();
    assert_eq!((h.command.as_str(), h.interval_secs, h.timeout_secs, h.retries), ("curl -f http://localhost/", 30, 5, 3));
    let mut a = ServiceDef::new("a");
    a.healthcheck = parse_stack_string(content).unwrap().services.remove(0).healthcheck;
    let sorted = topological_sort(&vec![a]).unwrap();
    assert_eq!(sorted[0].healthcheck.as_ref().unwrap().retries, 3);
}
