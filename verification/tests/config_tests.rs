use rude_core::engine::config::{EngineConfig, FileAllocation, RpcConfig};
use rude_core::path::FilePath;

fn path(text: &str) -> FilePath {
    FilePath::from_text(text)
}

#[test]
fn defaults_for_given_directories() {
    let c = EngineConfig::with_dirs(Some(path("/dl")), Some(path("/cfg")));
    assert_eq!(c.max_concurrent_downloads, 5);
    assert_eq!(c.max_connections_per_server, 8);
    assert_eq!(c.max_total_connections, 32);
    assert_eq!(c.split, 8);
    assert_eq!(c.min_split_size, 20_971_520);
    assert_eq!(c.chunk_size, 4_194_304);
    assert!(c.adaptive_workers && c.work_stealing);
    assert_eq!(c.max_retries, 5);
    assert_eq!(c.retry_delay_ms, 1000);
    assert_eq!(c.download_dir, path("/dl"));
    assert_eq!(c.file_allocation, FileAllocation::Prealloc);
    assert_eq!(c.session_file, Some(path("/cfg/rude/session.json")));
    assert_eq!(c.save_session_interval, 60);
    assert_eq!(c.max_download_speed, 0);
}

#[test]
fn defaults_without_directories() {
    let c = EngineConfig::with_dirs(None, None);
    assert_eq!(c.download_dir, path("."));
    assert_eq!(c.session_file, None);
    let clone = c.clone();
    assert_eq!(clone.rpc.host, "127.0.0.1");
}

#[test]
fn defaults_of_this_user() {
    let c = EngineConfig::default();
    assert_eq!(c.split, 8);
    if let Some(file) = c.session_file {
        assert!(file.bytes.ends_with(b"/rude/session.json"));
    }
    assert_eq!(FileAllocation::default(), FileAllocation::Prealloc);
}

#[test]
fn rpc_address() {
    let mut rpc = RpcConfig::default();
    assert!(rpc.enabled && rpc.secret.is_none());
    assert_eq!(rpc.address(), "127.0.0.1:16800");
    rpc.port = 80;
    assert_eq!(rpc.address(), "127.0.0.1:80");
}

#[test]
fn config_paths() {
    let given = Some("x.toml".to_string());
    let dir = Some(path("/home/u/.config"));
    assert_eq!(EngineConfig::path_in(&given, &dir), path("x.toml"));
    assert_eq!(EngineConfig::path_in(&None, &dir), path("/home/u/.config/rude/config.toml"));
    assert_eq!(EngineConfig::path_in(&None, &None), path("rude.toml"));
    assert_eq!(EngineConfig::path(&given), path("x.toml"));
    let file = EngineConfig::path(&None);
    assert!(file == path("rude.toml") || file.bytes.ends_with(b"/rude/config.toml"));
}

#[test]
fn directories_need_not_be_text() {
    let dir = FilePath { bytes: vec![b'/', 0xff, b'd'] };
    let c = EngineConfig::with_dirs(Some(dir.clone()), Some(dir.clone()));
    assert_eq!(c.download_dir, dir);
    assert_eq!(c.session_file.unwrap().bytes, b"/\xffd/rude/session.json");
    assert_eq!(EngineConfig::path_in(&None, &Some(dir)).bytes, b"/\xffd/rude/config.toml");
}
