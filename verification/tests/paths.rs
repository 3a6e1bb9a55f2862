use std::path::{Path, PathBuf};
use straws::path::{file_name, join, relative, with_file_name};
use straws::text;

struct Dice(u64);

impl Dice {
    fn roll(&mut self, n: u64) -> usize {
        self.0 = self.0.wrapping_mul(6364136223846793005).wrapping_add(1442695040888963407);
        ((self.0 >> 33) % n) as usize
    }

    fn path(&mut self) -> String {
        let parts = ["a", "b", "..", ".", "", "/", "c.txt", "日", "...", ".h"];
        let n = self.roll(6);
        let mut s = String::new();
        for i in 0..n {
            if i > 0 || self.roll(3) == 0 {
                s.push('/');
            }
            s.push_str(parts[self.roll(10)]);
        }
        if self.roll(4) == 0 {
            s.push('/');
        }
        s
    }
}

#[test]
fn names_are_those_of_std() {
    let mut d = Dice(1);
    for _ in 0..3000 {
        let p = d.path();
        let want = Path::new(&p).file_name().map(|n| n.to_str().unwrap().to_string());
        assert_eq!(file_name(&p), want, "{:?}", p);
    }
}

#[test]
fn joins_are_those_of_std() {
    let mut d = Dice(2);
    for _ in 0..3000 {
        let (p, q) = (d.path(), d.path());
        let want = Path::new(&p).join(&q).to_str().unwrap().to_string();
        assert_eq!(join(&p, &q), want, "{:?} {:?}", p, q);
    }
}

#[test]
fn renames_are_those_of_std() {
    let mut d = Dice(3);
    for _ in 0..3000 {
        let p = d.path();
        let mut want = PathBuf::from(&p);
        want.set_file_name("new.name");
        assert_eq!(with_file_name(&p, "new.name"), want.to_str().unwrap(), "{:?}", p);
    }
}

#[test]
fn relative_paths_are_those_of_std() {
    let mut d = Dice(4);
    let mut below = 0;
    for _ in 0..6000 {
        let base = d.path();
        let p = if d.roll(2) == 0 { d.path() } else { join(&base, &d.path()) };
        let want = Path::new(&p)
            .strip_prefix(Path::new(&base))
            .ok()
            .map(|r| r.to_str().unwrap().to_string());
        if want.is_some() {
            below += 1;
        }
        assert_eq!(relative(&p, &base), want, "{:?} {:?}", p, base);
    }
    assert!(below > 500);
}

#[test]
fn what_was_joined_is_found_again() {
    for base in ["", "/", ".", "a", "a/", "/x/./y", "./a//b"] {
        for rel in ["f", "d/f", "d/e/f.txt"] {
            assert_eq!(relative(&join(base, rel), base).as_deref(), Some(rel));
        }
    }
    // A leading `.` counts for nothing below a directory.
    assert_eq!(relative(&join("a", "./f"), "a").as_deref(), Some("f"));
}

#[test]
fn blanks_are_those_of_std() {
    for code in 0..0x3100u32 {
        if let Some(c) = char::from_u32(code) {
            let s = format!("{}x{}y{}", c, c, c);
            assert_eq!(text::trim(&s), s.trim(), "{:x}", code);
        }
    }
}

#[test]
fn texts_are_put_together() {
    assert_eq!(text::decimal(0), "0");
    assert_eq!(text::decimal(u64::MAX), u64::MAX.to_string());
    assert_eq!(text::octal(0o7654), "7654");
    assert_eq!(text::pad("7", 3, '0'), "007");
    assert_eq!(text::pad("1234", 3, '0'), "1234");
    assert_eq!(text::split("a\0b\0\0c", '\0'), ["a", "b", "", "c"]);
    assert_eq!(text::split("", ','), [""]);
    assert_eq!(text::replace_char("a'b'", '\'', "xy"), "axybxy");
    assert_eq!(text::strip_end("ab\r\n\n", '\r', '\n'), "ab");
    assert_eq!(text::repeat("ab", 3), "ababab");
    assert!(text::contains_text("File not found: x", "not found"));
    assert!(!text::contains_text("File not foun", "not found"));
    assert!(text::contains_text("", ""));
}

#[test]
fn splitting_undoes_joining() {
    let parts: Vec<String> = ["a", "", "bc", "d"].iter().map(|s| s.to_string()).collect();
    assert_eq!(text::split(&text::join(&parts, "\0"), '\0'), parts);
}

#[test]
fn paths_are_called_by_their_last_name() {
    for base in ["", "/", "a", "a/b/", "..", "/x/.."] {
        assert_eq!(file_name(&join(base, "n.txt")).as_deref(), Some("n.txt"));
        assert_eq!(file_name(&with_file_name(base, "n.txt")).as_deref(), Some("n.txt"));
    }
}
