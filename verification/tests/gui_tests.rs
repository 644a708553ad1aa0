//! Tests of the desktop front-end's form decisions and log lines.

use azoth::app::Kdf;
use azoth::gui::{
    job_line, known_list, log_line, parse_k, parse_kdf, plan_create, plan_read, plan_write,
    read_ok_line, creating_line,
};

#[test]
fn k_field() {
    assert_eq!(parse_k(" 419 "), Ok(419));
    assert_eq!(parse_k("+7"), Ok(7));
    assert_eq!(parse_k(""), Err("K must be a whole number >= 2".to_string()));
    assert_eq!(parse_k("4 19"), Err("K must be a whole number >= 2".to_string()));
    assert_eq!(parse_k("-3"), Err("K must be a whole number >= 2".to_string()));
}

#[test]
fn kdf_fields() {
    assert_eq!(parse_kdf("256", " 3 "), Ok(Kdf { mem_mib: 256, iters: 3 }));
    assert_eq!(parse_kdf("4294967295", "1"), Ok(Kdf { mem_mib: u32::MAX, iters: 1 }));
    assert_eq!(parse_kdf("4294967296", "1"), Err("KDF memory (MiB) must be a whole number".to_string()));
    assert_eq!(parse_kdf("x", "3"), Err("KDF memory (MiB) must be a whole number".to_string()));
    assert_eq!(parse_kdf("256", ""), Err("KDF iterations must be a whole number".to_string()));
    assert_eq!(parse_kdf("0", "3"), Err("KDF memory (MiB) and iterations must each be >= 1".to_string()));
    assert_eq!(parse_kdf("256", "0"), Err("KDF memory (MiB) and iterations must each be >= 1".to_string()));
}

#[test]
fn known_passwords_one_per_line() {
    assert_eq!(known_list("alice\n\n  bob \r\n carol"), vec!["alice", "bob", "carol"]);
    assert_eq!(known_list(""), Vec::<String>::new());
    assert_eq!(known_list(" \n\t\n"), Vec::<String>::new());
    assert_eq!(known_list("x\n"), vec!["x"]);
    assert_eq!(known_list("two words\nlast"), vec!["two words", "last"]);
}

#[test]
fn create_form() {
    let p = plan_create("  vault.bin ", "64k", "419", "256", "3").unwrap();
    assert_eq!((p.path.as_str(), p.size, p.k, p.kdf), ("vault.bin", 65536, 419, Kdf { mem_mib: 256, iters: 3 }));
    assert_eq!(
        plan_create("  ", "64k", "419", "256", "3").err(),
        Some("error: choose a container file path first (Browse\u{2026}).".to_string())
    );
    assert_eq!(
        plan_create("v", "64q", "419", "256", "3").err(),
        Some("error: invalid size \"64q\": use a number, optionally with k/kb/m/mb/g/gb (1024-based)".to_string())
    );
    assert_eq!(plan_create("v", "64k", "k", "256", "3").err(), Some("error: K must be a whole number >= 2".to_string()));
    assert_eq!(
        plan_create("v", "64k", "11", "256", "zero").err(),
        Some("error: KDF iterations must be a whole number".to_string())
    );
}

#[test]
fn write_form() {
    let p = plan_write(" v.bin", "pw", "11", "8", "1", "  ", "alice\nbob").unwrap();
    assert_eq!((p.path.as_str(), p.pw.as_str(), p.k), ("v.bin", "pw", 11));
    assert_eq!(p.kdf, Kdf { mem_mib: 8, iters: 1 });
    assert_eq!(p.data_file, None);
    assert_eq!(p.known, vec!["alice", "bob"]);
    let q = plan_write("v.bin", " pw ", "11", "8", "1", " data.txt ", "").unwrap();
    assert_eq!(q.pw, " pw ");
    assert_eq!(q.data_file, Some("data.txt".to_string()));
    assert!(q.known.is_empty());
    assert_eq!(
        plan_write("", "pw", "11", "8", "1", "", "").err(),
        Some("error: choose a container file first (Browse\u{2026}).".to_string())
    );
    assert_eq!(
        plan_write("v", "", "11", "8", "1", "", "").err(),
        Some("error: enter a password to write under.".to_string())
    );
}

#[test]
fn read_form() {
    let p = plan_read("v.bin", "pw", "13", "256", "3").unwrap();
    assert_eq!((p.path.as_str(), p.pw.as_str(), p.k), ("v.bin", "pw", 13));
    assert_eq!(plan_read("v", "", "13", "256", "3").err(), Some("error: enter a password to read.".to_string()));
    assert_eq!(
        plan_read("v", "pw", "13", "0", "3").err(),
        Some("error: KDF memory (MiB) and iterations must each be >= 1".to_string())
    );
}

#[test]
fn log_lines() {
    let mut log = String::new();
    log_line(&mut log, "first");
    log_line(&mut log, "second");
    assert_eq!(log, "first\nsecond");
    assert_eq!(job_line(Ok("done".to_string())), "done");
    assert_eq!(job_line(Err("bad".to_string())), "error: bad");
    assert_eq!(creating_line("v.bin"), "working\u{2026} creating v.bin");
    assert_eq!(
        read_ok_line(5),
        "read OK: decrypted 5 byte(s) \u{2014} shown below; use \"Save to file\u{2026}\" for exact bytes"
    );
}
