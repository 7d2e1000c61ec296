use bloomd::config::BloomConfig;
use bloomd::decimal::Decimal;
use bloomd::server::{BloomServer, Outcome};
use bloomd::wrappers::DiskOp;
use std::collections::HashMap;

const PAGE: u64 = 4096;

fn params_for(capacity: u64, prob: Decimal) -> (u64, u32) {
    let p = prob.digits as f64 / 10f64.powi(prob.scale as i32);
    let ln2 = std::f64::consts::LN_2;
    let bits = (-(capacity as f64) * p.ln() / (ln2 * ln2)).ceil();
    let mut k = (bits / capacity as f64 * ln2).round();
    if k < 1.0 {
        k = 1.0;
    }
    let bytes = (bits / 8.0).ceil() as u64 + 512;
    (bytes, k as u32)
}

struct Disk {
    files: HashMap<String, Vec<u8>>,
    dirs: Vec<String>,
}

impl Disk {
    fn new() -> Self {
        Disk { files: HashMap::new(), dirs: Vec::new() }
    }

    fn apply(&mut self, ops: Vec<DiskOp>) {
        for op in ops {
            match op {
                DiskOp::MakeDir { path } => self.dirs.push(path),
                DiskOp::CreateFile { path, len } => {
                    self.files.insert(path, vec![0u8; len as usize]);
                }
                DiskOp::WritePage { path, offset, bytes } => {
                    let f = self.files.get_mut(&path).unwrap();
                    let o = offset as usize;
                    f[o..o + bytes.len()].copy_from_slice(&bytes);
                }
                DiskOp::WriteFile { path, contents } => {
                    self.files.insert(path, contents.into_bytes());
                }
                DiskOp::RemoveDir { path } => {
                    self.dirs.retain(|d| d != &path);
                    let prefix = format!("{}/", path);
                    self.files.retain(|k, _| !k.starts_with(&prefix));
                }
            }
        }
    }
}

fn run(server: &mut BloomServer, disk: &mut Disk, line: &str) -> String {
    loop {
        match server.interpret_request(line) {
            Outcome::Reply { text, ops } => {
                disk.apply(ops);
                return text;
            }
            Outcome::NeedLayers { name, paths } => {
                let images: Option<Vec<Vec<u8>>> =
                    paths.iter().map(|p| disk.files.get(p).cloned()).collect();
                if let Some(reply) = server.load_filter(&name, images) {
                    return reply;
                }
            }
            Outcome::NeedCreate { name, directory, capacity, probability, in_memory } => {
                if disk.dirs.contains(&directory) {
                    let ini = format!("{}/{}.ini", directory, name);
                    let text = String::from_utf8(disk.files.get(&ini).cloned().unwrap_or_default()).unwrap();
                    match server.recover_filter(name, &text) {
                        Outcome::Reply { text, ops } => {
                            disk.apply(ops);
                            return text;
                        }
                        _ => panic!("recovery asks for more"),
                    }
                }
                let (bytes, k) = params_for(capacity, probability);
                match server.create_filter(name, capacity, probability, in_memory, bytes, k) {
                    Outcome::Reply { text, ops } => {
                        disk.apply(ops);
                        return text;
                    }
                    _ => panic!("create asks for more"),
                }
            }
        }
    }
}

fn new_server() -> BloomServer {
    BloomServer::new(BloomConfig::default(), PAGE)
}

fn test_command(server: &mut BloomServer, disk: &mut Disk, command: &str, result: &str) {
    assert_eq!(run(server, disk, command), format!("{}\r\n", result));
}

#[test]
fn test_server() {
    let mut disk = Disk::new();
    let server = &mut new_server();
    let d = &mut disk;
    test_command(server, d, "create filter", "Done");
    test_command(server, d, "create filter", "Exists");

    test_command(server, d, "check filter first", "0");
    test_command(server, d, "set filter first", "1");
    test_command(server, d, "c filter first", "1");
    test_command(server, d, "s filter first", "2");
    test_command(server, d, "c filter first", "2");
    test_command(server, d, "s filter first", "3");
    test_command(server, d, "c filter first", "3");

    test_command(server, d, "set filetr first", "Filter does not exist");
    test_command(server, d, "check filetr first", "Filter does not exist");
    test_command(server, d, "set filter first second", "Client Error: Bad arguments");
    test_command(server, d, "set filter first second", "Client Error: Bad arguments");
    test_command(server, d, "check filter", "Client Error: Bad arguments");
    test_command(server, d, "set filter", "Client Error: Bad arguments");

    test_command(server, d, "multi filter first second third", "3 0 0");
    test_command(server, d, "bulk filter first second third", "4 1 1");
    test_command(server, d, "b filter first second third", "5 2 2");
    test_command(server, d, "m filter first second third", "5 2 2");

    test_command(server, d, "bulk filetr first second third", "Filter does not exist");
    test_command(server, d, "multi filetr first second third", "Filter does not exist");
    test_command(server, d, "check filter", "Client Error: Bad arguments");
    test_command(server, d, "set filter", "Client Error: Bad arguments");

    // The storage column is the layer size in bytes: the bit array plus its 512-byte header.
    test_command(server, d, "list fake_prefix", "START\r\nEND");
    test_command(server, d, "list", "START\r\nfilter 0.0001 240139 100000 3\r\nEND");

    let info_results: &str = "START\r\ncapacity 100000\r\nchecks 10\r\ncheck_hits 7\r\ncheck_misses 3\r\npage_ins 0\r\npage_outs 0\r\nprobability 0.0001\r\nsets 9\r\nset_hits 6\r\nset_misses 3\r\nsize 3\r\nstorage 240139\r\nEND";
    test_command(server, d, "info", "Client Error: Bad arguments");
    test_command(server, d, "info filetr", "Filter does not exist");
    test_command(server, d, "info filter", info_results);

    test_command(server, d, "infor filter", "Client Error: Command not supported");
    test_command(server, d, "sette filter first", "Client Error: Command not supported");

    test_command(server, d, "drop", "Client Error: Bad arguments");
    test_command(server, d, "drop filter", "Done");
    test_command(server, d, "drop filter", "Filter does not exist");
}

#[test]
fn scenario_create_set_check_drop() {
    let mut disk = Disk::new();
    let s = &mut new_server();
    let d = &mut disk;
    test_command(s, d, "create f", "Done");
    test_command(s, d, "create f", "Exists");
    test_command(s, d, "set f a", "1");
    test_command(s, d, "check f a", "1");
    test_command(s, d, "check f b", "0");
    test_command(s, d, "drop f", "Done");
    test_command(s, d, "drop f", "Filter does not exist");
}

#[test]
fn scenario_generations_grow() {
    let mut disk = Disk::new();
    let s = &mut new_server();
    let d = &mut disk;
    test_command(s, d, "create g", "Done");
    test_command(s, d, "set g x", "1");
    test_command(s, d, "set g x", "2");
    test_command(s, d, "set g x", "3");
    test_command(s, d, "check g x", "3");
    test_command(s, d, "bulk g x y z", "4 1 1");
}

#[test]
fn scenario_multi() {
    let mut disk = Disk::new();
    let s = &mut new_server();
    let d = &mut disk;
    test_command(s, d, "create h", "Done");
    test_command(s, d, "multi h a b", "0 0");
    test_command(s, d, "set h a", "1");
    test_command(s, d, "multi h a b", "1 0");
}

#[test]
fn scenario_flush_and_restart() {
    let mut disk = Disk::new();
    {
        let s = &mut new_server();
        test_command(s, &mut disk, "create j", "Done");
        test_command(s, &mut disk, "set j k", "1");
        test_command(s, &mut disk, "flush", "Done");
    }
    let s = &mut new_server();
    let ini = String::from_utf8(disk.files.get("/tmp/bloomd/filter.j/j.ini").cloned().unwrap()).unwrap();
    match s.recover_filter("j".to_owned(), &ini) {
        Outcome::Reply { text, .. } => assert_eq!(text, "Done\r\n"),
        _ => panic!("recovery asks for more"),
    }
    test_command(s, &mut disk, "check j k", "1");
    let info = run(s, &mut disk, "info j");
    assert!(info.contains("size 1\r\n"));
    assert!(info.contains("sets 1\r\n"));
}

#[test]
fn scenario_custom_parameters() {
    let mut disk = Disk::new();
    let s = &mut new_server();
    let d = &mut disk;
    test_command(s, d, "create p capacity=1000 prob=0.01", "Done");
    let info = run(s, d, "info p");
    assert!(info.contains("capacity 1000\r\n"));
    assert!(info.contains("probability 0.01\r\n"));
    let list = run(s, d, "list");
    assert!(list.contains("\r\np 0.01 "));
}

#[test]
fn scenario_close_reloads() {
    let mut disk = Disk::new();
    let s = &mut new_server();
    let d = &mut disk;
    test_command(s, d, "create q", "Done");
    test_command(s, d, "close q", "Done");
    test_command(s, d, "check q z", "0");
    let info = run(s, d, "info q");
    assert!(info.contains("page_ins 1\r\n"));
    assert!(info.contains("page_outs 1\r\n"));
}

#[test]
fn close_then_reload_answers_the_same() {
    let mut disk = Disk::new();
    let s = &mut new_server();
    let d = &mut disk;
    test_command(s, d, "create r", "Done");
    test_command(s, d, "bulk r a b a c a", "1 1 2 1 3");
    let before = run(s, d, "multi r a b c d");
    test_command(s, d, "close r", "Done");
    assert_eq!(run(s, d, "multi r a b c d"), before);
    assert_eq!(before, "3 1 1 0\r\n");
}

#[test]
fn clear_keeps_files_for_recovery() {
    let mut disk = Disk::new();
    let s = &mut new_server();
    let d = &mut disk;
    test_command(s, d, "create x", "Done");
    test_command(s, d, "set x key", "1");
    test_command(s, d, "clear x", "Done");
    test_command(s, d, "check x key", "Filter does not exist");
    assert!(d.dirs.contains(&"/tmp/bloomd/filter.x".to_owned()));
    test_command(s, d, "create x", "Done");
    test_command(s, d, "check x key", "1");
}

#[test]
fn drop_erases_directory() {
    let mut disk = Disk::new();
    let s = &mut new_server();
    let d = &mut disk;
    test_command(s, d, "create y", "Done");
    test_command(s, d, "set y k", "1");
    test_command(s, d, "flush y", "Done");
    assert!(d.files.contains_key("/tmp/bloomd/filter.y/0.bmp"));
    test_command(s, d, "drop y", "Done");
    assert!(!d.dirs.contains(&"/tmp/bloomd/filter.y".to_owned()));
    assert!(!d.files.contains_key("/tmp/bloomd/filter.y/0.bmp"));
}

#[test]
fn bad_requests() {
    let mut disk = Disk::new();
    let s = &mut new_server();
    let d = &mut disk;
    test_command(s, d, "", "Client Error: Command not supported");
    test_command(s, d, "   ", "Client Error: Command not supported");
    test_command(s, d, "create", "Client Error: Bad arguments");
    test_command(s, d, "create z color=red", "Client Error: Bad arguments");
    test_command(s, d, "flush a b", "Client Error: Bad arguments");
    test_command(s, d, "flush nope", "Filter does not exist");
    test_command(s, d, "list a b", "Client Error: Bad arguments");
    test_command(s, d, "close", "Client Error: Bad arguments");
    test_command(s, d, "close nope", "Filter does not exist");
    test_command(s, d, "clear nope", "Filter does not exist");
    test_command(s, d, "multi only", "Client Error: Bad arguments");
    test_command(s, d, "bulk only", "Client Error: Bad arguments");
}

#[test]
fn list_filters_by_prefix() {
    let mut disk = Disk::new();
    let s = &mut new_server();
    let d = &mut disk;
    test_command(s, d, "create alpha in_memory=1", "Done");
    test_command(s, d, "create beta in_memory=1", "Done");
    test_command(s, d, "create alps in_memory=1", "Done");
    assert_eq!(
        run(s, d, "list al"),
        "START\r\nalpha 0.0001 240139 100000 0\r\nalps 0.0001 240139 100000 0\r\nEND\r\n"
    );
}

#[test]
fn in_memory_filter_writes_nothing() {
    let mut disk = Disk::new();
    let s = &mut new_server();
    let d = &mut disk;
    test_command(s, d, "create m in_memory=1", "Done");
    test_command(s, d, "set m k", "1");
    test_command(s, d, "flush", "Done");
    assert!(d.files.is_empty());
    assert!(d.dirs.is_empty());
}

#[test]
fn workers_flush_and_evict() {
    let mut disk = Disk::new();
    let s = &mut new_server();
    test_command(s, &mut disk, "create w", "Done");
    test_command(s, &mut disk, "set w k", "1");
    let ops = s.flush_tick(2);
    assert!(!ops.is_empty());
    disk.apply(ops);
    for _ in 0..61 {
        let ops = s.cold_tick();
        disk.apply(ops);
    }
    let f = s.filter(&"w".to_owned()).unwrap();
    assert!(!f.is_loaded());
    test_command(s, &mut disk, "check w k", "1");
}

#[test]
fn unreadable_layer_files_fail_the_request() {
    let mut disk = Disk::new();
    let s = &mut new_server();
    test_command(s, &mut disk, "create u", "Done");
    test_command(s, &mut disk, "set u k", "1");
    test_command(s, &mut disk, "close u", "Done");
    assert_eq!(s.load_filter(&"u".to_owned(), None), Some(bloomd::server::failure_reply()));
    assert_eq!(s.load_filter(&"u".to_owned(), Some(vec![vec![0u8; 16]])), Some("Internal Error\r\n".to_owned()));
    assert!(!s.filter(&"u".to_owned()).unwrap().is_loaded());
    test_command(s, &mut disk, "check u k", "1");
}
