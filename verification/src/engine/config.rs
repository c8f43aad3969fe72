//! Engine configuration: defaults and where the files live.

use crate::path;
use crate::path::FilePath;
use crate::text;
use vstd::prelude::*;

verus! {

/// How the output file gets its space before the download starts.
#[derive(Debug, Clone, Copy, PartialEq, Eq, Structural)]
pub enum FileAllocation {
    /// Written `none` in the configuration file
    Unallocated,
    Prealloc,
    Falloc,
}

impl Default for FileAllocation {
    fn default() -> (allocation: Self)
        ensures
            allocation == FileAllocation::Prealloc,
    {
        FileAllocation::Prealloc
    }
}

/// The RPC server's settings.
#[derive(Debug)]
pub struct RpcConfig {
    pub enabled: bool,
    pub host: String,
    pub port: u16,
    /// Shared secret token for authentication
    pub secret: Option<String>,
}

impl Clone for RpcConfig {
    fn clone(&self) -> (copy: Self)
        ensures
            copy == *self,
    {
        RpcConfig {
            enabled: self.enabled,
            host: self.host.clone(),
            port: self.port,
            secret: self.secret.clone(),
        }
    }
}

/// The RPC settings that hold unless others are given.
pub open spec fn default_rpc(rpc: RpcConfig) -> bool {
    &&& rpc.enabled
    &&& rpc.host@ == "127.0.0.1"@
    &&& rpc.port == 16800
    &&& rpc.secret is None
}

impl Default for RpcConfig {
    fn default() -> (rpc: Self)
        ensures
            default_rpc(rpc),
    {
        RpcConfig { enabled: true, host: "127.0.0.1".to_string(), port: 16800, secret: None }
    }
}

impl RpcConfig {
    /// The address to listen on, `host:port`.
    pub fn address(&self) -> (addr: String)
        ensures
            addr@ == self.host@ + ":"@ + text::decimal(self.port as nat),
    {
        let mut addr: String = self.host.clone();
        addr.append(":");
        let port: String = text::decimal_string(self.port as u64);
        addr.append(port.as_str());
        addr
    }
}

/// Top-level engine configuration.
#[derive(Debug)]
pub struct EngineConfig {
    /// Max simultaneous download tasks
    pub max_concurrent_downloads: usize,
    /// Max HTTP connections per server
    pub max_connections_per_server: usize,
    /// Max total connections across all tasks
    pub max_total_connections: usize,
    /// Number of chunks to split each file into
    pub split: usize,
    /// Minimum file size to split (bytes). Below this, single-connection.
    pub min_split_size: u64,
    /// Chunk size for reads / range requests (bytes)
    pub chunk_size: u64,
    /// Enable adaptive worker management
    pub adaptive_workers: bool,
    /// Enable work stealing: fast idle workers take chunks from slow peers
    pub work_stealing: bool,
    /// Max retries per chunk before marking the task as failed
    pub max_retries: u32,
    /// Base retry delay (ms)
    pub retry_delay_ms: u64,
    /// Default download directory
    pub download_dir: FilePath,
    /// Allocate full file size before downloading
    pub file_allocation: FileAllocation,
    /// Path to session file for crash recovery
    pub session_file: Option<FilePath>,
    /// Save session interval (seconds). 0 = only on clean shutdown.
    pub save_session_interval: u64,
    pub rpc: RpcConfig,
    /// Global download speed cap (bytes/sec). 0 = unlimited.
    pub max_download_speed: u64,
}

/// The two configurations are the same.
pub open spec fn same_config(a: EngineConfig, b: EngineConfig) -> bool {
    &&& a.download_dir@ == b.download_dir@
    &&& path::opt(a.session_file) == path::opt(b.session_file)
    &&& a == (EngineConfig {
        download_dir: a.download_dir,
        session_file: a.session_file,
        ..b
    })
}

impl Clone for EngineConfig {
    fn clone(&self) -> (copy: Self)
        ensures
            same_config(copy, *self),
    {
        EngineConfig {
            max_concurrent_downloads: self.max_concurrent_downloads,
            max_connections_per_server: self.max_connections_per_server,
            max_total_connections: self.max_total_connections,
            split: self.split,
            min_split_size: self.min_split_size,
            chunk_size: self.chunk_size,
            adaptive_workers: self.adaptive_workers,
            work_stealing: self.work_stealing,
            max_retries: self.max_retries,
            retry_delay_ms: self.retry_delay_ms,
            download_dir: self.download_dir.clone(),
            file_allocation: self.file_allocation,
            session_file: path::copy_opt(&self.session_file),
            save_session_interval: self.save_session_interval,
            rpc: self.rpc.clone(),
            max_download_speed: self.max_download_speed,
        }
    }
}

/// The configuration that holds unless another is given, with the user's
/// download and configuration directories.
pub open spec fn defaults(
    config: EngineConfig,
    download_dir: Option<Seq<u8>>,
    config_dir: Option<Seq<u8>>,
) -> bool {
    &&& config.max_concurrent_downloads == 5
    &&& config.max_connections_per_server == 8
    &&& config.max_total_connections == 32
    &&& config.split == 8
    &&& config.min_split_size == 20 * 1024 * 1024
    &&& config.chunk_size == 4 * 1024 * 1024
    &&& config.adaptive_workers
    &&& config.work_stealing
    &&& config.max_retries == 5
    &&& config.retry_delay_ms == 1000
    &&& config.download_dir@ == (match download_dir {
        Some(dir) => dir,
        None => path::written("."@),
    })
    &&& config.file_allocation == FileAllocation::Prealloc
    &&& path::opt(config.session_file) == (match config_dir {
        Some(dir) => Some(path::joined(dir, path::written("rude/session.json"@))),
        None => None,
    })
    &&& config.save_session_interval == 60
    &&& default_rpc(config.rpc)
    &&& config.max_download_speed == 0
}

/// Where the configuration file lives: the path that was asked for, else
/// `rude/config.toml` below the configuration directory, else `rude.toml`.
pub open spec fn config_file(
    explicit: Option<Seq<char>>,
    config_dir: Option<Seq<u8>>,
) -> Seq<u8> {
    match explicit {
        Some(file) => path::written(file),
        None => match config_dir {
            Some(dir) => path::joined(dir, path::written("rude/config.toml"@)),
            None => path::written("rude.toml"@),
        },
    }
}

/// `dirs::download_dir`: the user's download directory, `None` where the system
/// names none. It depends on the environment and the user's files, so nothing is
/// claimed of it.
#[verifier::external_body]
fn download_dir() -> (dir: Option<FilePath>) {
    let dir = dirs::download_dir()?;
    Some(FilePath { bytes: dir.into_os_string().into_encoded_bytes() })
}

/// `dirs::config_dir`: the user's configuration directory, `None` where the
/// system names none. It depends on the environment, so nothing is claimed of it.
#[verifier::external_body]
fn config_dir() -> (dir: Option<FilePath>) {
    let dir = dirs::config_dir()?;
    Some(FilePath { bytes: dir.into_os_string().into_encoded_bytes() })
}

impl Default for EngineConfig {
    fn default() -> (config: Self)
        ensures
            exists|download_dir: Option<Seq<u8>>, config_dir: Option<Seq<u8>>| #[trigger]
                defaults(config, download_dir, config_dir),
    {
        let downloads = download_dir();
        let configs = config_dir();
        EngineConfig::with_dirs(downloads, configs)
    }
}

impl EngineConfig {
    /// The default configuration for the given directories.
    pub fn with_dirs(download_dir: Option<FilePath>, config_dir: Option<FilePath>) -> (config:
        Self)
        ensures
            defaults(config, path::opt(download_dir), path::opt(config_dir)),
    {
        EngineConfig {
            max_concurrent_downloads: 5,
            max_connections_per_server: 8,
            max_total_connections: 32,
            split: 8,
            min_split_size: 20 * 1024 * 1024,
            chunk_size: 4 * 1024 * 1024,
            adaptive_workers: true,
            work_stealing: true,
            max_retries: 5,
            retry_delay_ms: 1000,
            download_dir: match download_dir {
                Some(dir) => dir,
                None => FilePath::from_text("."),
            },
            file_allocation: FileAllocation::Prealloc,
            session_file: match config_dir {
                Some(dir) => Some(dir.join("rude/session.json")),
                None => None,
            },
            save_session_interval: 60,
            rpc: RpcConfig::default(),
            max_download_speed: 0,
        }
    }

    /// The path of the configuration file, for the user who runs the program.
    pub fn path(explicit: &Option<String>) -> (file: FilePath)
        ensures
            exists|config_dir: Option<Seq<u8>>|
                file@ == #[trigger] config_file(text::opt(*explicit), config_dir),
            explicit matches Some(p) ==> file@ == path::written(p@),
    {
        let configs = config_dir();
        let file = EngineConfig::path_in(explicit, &configs);
        assert(file@ == config_file(text::opt(*explicit), path::opt(configs)));
        file
    }

    /// The path of the configuration file, given the configuration directory.
    pub fn path_in(explicit: &Option<String>, config_dir: &Option<FilePath>) -> (file: FilePath)
        ensures
            file@ == config_file(text::opt(*explicit), path::opt(*config_dir)),
    {
        match explicit {
            Some(file) => FilePath::from_text(file.as_str()),
            None => match config_dir {
                Some(dir) => dir.join("rude/config.toml"),
                None => FilePath::from_text("rude.toml"),
            },
        }
    }
}

// ─── Laws ────────────────────────────────────────────────────────────────────

/// Unless it is configured otherwise: five downloads at a time, with eight connections to
/// a server and thirty-two in all; files of twenty mebibytes and more in eight chunks,
/// asked for four mebibytes at a time; five retries, a second apart at first; no cap, and
/// the session saved every minute. Files go to the user's download directory, or else to
/// the current one, and the session below the configuration directory, if there is one.
pub proof fn the_defaults_are_these(
    config: EngineConfig,
    download_dir: Option<Seq<u8>>,
    config_dir: Option<Seq<u8>>,
)
    requires
        defaults(config, download_dir, config_dir),
    ensures
        config.max_concurrent_downloads == 5,
        config.max_connections_per_server == 8,
        config.max_total_connections == 32,
        config.split == 8,
        config.min_split_size == 20971520,
        config.chunk_size == 4194304,
        config.adaptive_workers && config.work_stealing,
        config.max_retries == 5,
        config.retry_delay_ms == 1000,
        config.file_allocation == FileAllocation::Prealloc,
        config.save_session_interval == 60,
        config.max_download_speed == 0,
        config.rpc.enabled && config.rpc.port == 16800 && config.rpc.secret is None,
        config.rpc.host@ == "127.0.0.1"@,
        download_dir matches Some(dir) ==> config.download_dir.bytes@ == dir,
        download_dir is None ==> config.download_dir.bytes@ == vstd::utf8::encode_utf8("."@),
        config_dir is Some <==> config.session_file is Some,
        config_dir matches Some(dir) ==> config.session_file->0.bytes@.len() >= dir.len()
            && config.session_file->0.bytes@ == path::joined(
            dir,
            vstd::utf8::encode_utf8("rude/session.json"@),
        ),
{
    if let Some(dir) = config_dir {
        path::a_joined_path_has_both_parts(dir, path::written("rude/session.json"@));
        reveal_strlit("rude/session.json");
        let name = "rude/session.json"@;
        vstd::utf8::encode_utf8_first_scalar(name);
        assert(vstd::utf8::is_ascii_chars(name));
        vstd::utf8::is_ascii_chars_encode_utf8(name);
        assert(vstd::utf8::encode_utf8(name)[0] == name[0] as u8);
    }
}

/// The configuration file is the one that was asked for; else it lies below the
/// configuration directory, if there is one, and else in the current directory.
pub proof fn the_configuration_is_where_it_was_asked_for(
    explicit: Option<Seq<char>>,
    config_dir: Option<Seq<u8>>,
)
    ensures
        explicit matches Some(file) ==> config_file(explicit, config_dir)
            == vstd::utf8::encode_utf8(file),
        explicit is None && config_dir is Some ==> config_file(explicit, config_dir)
            == path::joined(config_dir->0, vstd::utf8::encode_utf8("rude/config.toml"@)),
        explicit is None && config_dir is None ==> config_file(explicit, config_dir)
            == vstd::utf8::encode_utf8("rude.toml"@),
{
}

/// The same configuration is the same in every setting.
pub proof fn the_same_configuration_is_the_same(a: EngineConfig, b: EngineConfig)
    requires
        same_config(a, b),
    ensures
        a.max_concurrent_downloads == b.max_concurrent_downloads,
        a.max_connections_per_server == b.max_connections_per_server,
        a.max_total_connections == b.max_total_connections,
        a.split == b.split,
        a.min_split_size == b.min_split_size,
        a.chunk_size == b.chunk_size,
        a.adaptive_workers == b.adaptive_workers,
        a.work_stealing == b.work_stealing,
        a.max_retries == b.max_retries,
        a.retry_delay_ms == b.retry_delay_ms,
        a.download_dir.bytes@ == b.download_dir.bytes@,
        a.file_allocation == b.file_allocation,
        a.session_file is Some <==> b.session_file is Some,
        a.session_file is Some ==> a.session_file->0.bytes@ == b.session_file->0.bytes@,
        a.save_session_interval == b.save_session_interval,
        a.rpc == b.rpc,
        a.max_download_speed == b.max_download_speed,
{
}

} // verus!
