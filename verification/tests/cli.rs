//! The console's decisions.

use l_rs::cli::{
    command, fmt_label, fmt_of, input_line, load_plan, parse_target, reply_text, resolve_target, row_count,
    save_plan, script_statements, Args, Command, Fmt, LoadPlan, TargetError,
};
use l_rs::io::table;
use l_rs::render::FloatBits;
use l_rs::K;

fn shown(x: FloatBits) -> String {
    match x {
        FloatBits::Real(b) => f32::from_bits(b).to_string(),
        FloatBits::Float(b) | FloatBits::DateTime(b) => f64::from_bits(b).to_string(),
    }
}

#[test]
fn targets() {
    let t = parse_target("db:5001").unwrap();
    assert_eq!((t.host.as_str(), t.port, t.creds.as_str()), ("db", 5001, ""));
    let t = parse_target("db:5001:me:pw:x").unwrap();
    assert_eq!((t.host.as_str(), t.port, t.creds.as_str()), ("db", 5001, "me:pw:x"));
    let t = parse_target("db:+7:me").unwrap();
    assert_eq!((t.port, t.creds.as_str()), (7, "me"));
    let t = parse_target("db:1::pw").unwrap();
    assert_eq!(t.creds, "");
    assert_eq!(parse_target("db").err(), Some(TargetError::MissingPort));
    assert_eq!(parse_target("db:70000").err(), Some(TargetError::BadPort));
    assert_eq!(parse_target("db:x").err().unwrap().message(), "port must be a number 1-65535");
}

#[test]
fn flags_override_the_target() {
    let a = Args { target: None, host: None, port: Some(6000), user: None, eval: None };
    let t = resolve_target(&a).unwrap();
    assert_eq!((t.host.as_str(), t.port, t.creds.as_str()), ("localhost", 6000, ""));
    let a = Args { target: Some("h:1:u".into()), host: Some("k".into()), port: None, user: Some("v:w".into()), eval: None };
    let t = resolve_target(&a).unwrap();
    assert_eq!((t.host.as_str(), t.port, t.creds.as_str()), ("k", 1, "v:w"));
}

#[test]
fn formats_by_extension() {
    assert_eq!(fmt_of("a/b.CSV"), Fmt::Csv);
    assert_eq!(fmt_of("x.q"), Fmt::Script);
    assert_eq!(fmt_of("x.K"), Fmt::Script);
    assert_eq!(fmt_of("t.json"), Fmt::Json);
    assert_eq!(fmt_of("t.bin"), Fmt::Binary);
    assert_eq!(fmt_of(".csv"), Fmt::Binary);
    assert_eq!(fmt_of("dir.csv/"), Fmt::Csv);
    assert_eq!(fmt_of("a.csv/.."), Fmt::Binary);
    assert_eq!(fmt_of("a.json/."), Fmt::Json);
    assert_eq!(fmt_label(Fmt::Binary), "l");
    assert_eq!(fmt_label(Fmt::Script), "script");
}

#[test]
fn rows_of_tables() {
    let t = table(vec!["a".into()], vec![K::IntVec(vec![1, 2, 3])]);
    assert_eq!(row_count(&t), 3);
    assert_eq!(row_count(&K::Int(1)), 0);
    assert_eq!(row_count(&table(vec![], vec![])), 0);
}

#[test]
fn load_plans() {
    assert_eq!(load_plan("\\load"), LoadPlan::Usage);
    assert_eq!(load_plan("\\load init.q"), LoadPlan::Script("init.q".into()));
    assert_eq!(load_plan("\\load t data.csv "), LoadPlan::Data("t".into(), "data.csv".into(), Fmt::Csv));
    assert_eq!(load_plan("\\load data.csv"), LoadPlan::NeedsName("data.csv".into()));
    assert_eq!(load_plan("\\load t init.q"), LoadPlan::NoName("init.q".into()));
}

#[test]
fn save_plans() {
    assert_eq!(save_plan("\\save out.csv select from t"), Some(("out.csv".into(), "select from t".into())));
    assert_eq!(save_plan("\\save out.csv"), None);
    assert_eq!(save_plan("\\save"), None);
}

#[test]
fn commands() {
    assert_eq!(command("\\\\"), Command::Quit);
    assert_eq!(command(""), Command::Skip);
    assert_eq!(command("\\h"), Command::Help);
    assert_eq!(command("\\spool  log.txt "), Command::Spool("log.txt".into()));
    assert_eq!(command("\\spool"), Command::Spool("".into()));
    assert_eq!(command("\\cd /tmp"), Command::Cd("/tmp".into()));
    assert_eq!(command("\\!ls -l"), Command::Shell("ls -l".into()));
    assert_eq!(command("\\load x.q"), Command::Load(LoadPlan::Script("x.q".into())));
    assert_eq!(command("\\save p e"), Command::Save(Some(("p".into(), "e".into()))));
    assert_eq!(command("1+1"), Command::Send("1+1".into()));
    assert_eq!(input_line("a\r\n\n"), "a");
}

#[test]
fn scripts() {
    let src = "/ comment\na:1\n  +2\n\nb:3\r\n \n";
    assert_eq!(script_statements(src), vec!["a:1 +2".to_string(), "b:3".to_string()]);
    assert_eq!(script_statements(""), Vec::<String>::new());
    assert_eq!(script_statements("x\ry"), vec!["x\ry".to_string()]);
}

#[test]
fn replies() {
    let k = K::CharVec(b"1 2 3\n\n".to_vec());
    assert_eq!(reply_text(true, &k, &shown), "1 2 3");
    assert_eq!(reply_text(false, &K::IntVec(vec![1, 2]), &shown), "1 2");
    assert_eq!(reply_text(true, &K::Null, &shown), "::");
}
