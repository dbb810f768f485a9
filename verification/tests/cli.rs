use forest_router::cli::parse_port;
use forest_router::inflight::Inflight;
use forest_router::storage::{check_config_size, check_state_size};

fn parse(args: &[&str]) -> Result<Option<u16>, String> {
    parse_port(&args.iter().map(|s| s.to_string()).collect())
}

#[test]
fn port_arguments() {
    assert_eq!(parse(&[]).unwrap(), None);
    assert_eq!(parse(&["--port", "80"]).unwrap(), Some(80));
    assert_eq!(parse(&["--port=8119"]).unwrap(), Some(8119));
    for args in [
        vec!["--port"],
        vec!["--port", "0"],
        vec!["--port=65536"],
        vec!["--port=abc"],
        vec!["--port=80", "--port=81"],
        vec!["--unknown"],
    ] {
        assert!(parse(&args).is_err());
    }
}

#[test]
fn port_complaints_are_specific() {
    assert_eq!(parse(&["--port"]).unwrap_err(), "--port 缺少端口值");
    assert_eq!(parse(&["--port=1", "--port", "2"]).unwrap_err(), "--port 不能重复指定");
    assert_eq!(parse(&["--port=-1"]).unwrap_err(), "端口必须为1–65535的整数");
    assert_eq!(
        parse(&["-p"]).unwrap_err(),
        "未知参数：-p；用法：forest-router [--port 8119]"
    );
    assert_eq!(parse(&["--port=65535"]).unwrap(), Some(65535));
}

#[test]
fn files_have_limits() {
    assert_eq!(check_state_size(8 * 1024 * 1024), Ok(()));
    assert_eq!(check_state_size(8 * 1024 * 1024 + 1), Err("状态文件超过8MiB"));
    assert_eq!(check_config_size(1024 * 1024), Ok(()));
    assert_eq!(check_config_size(1024 * 1024 + 1), Err("配置超过1MiB"));
}

#[test]
fn one_check_of_a_name_at_a_time() {
    let mut i = Inflight::new();
    assert!(i.begin("service:k"));
    assert!(!i.begin("service:k"));
    assert!(i.begin("balance:k"));
    i.end("service:k");
    assert!(i.begin("service:k"));
}
