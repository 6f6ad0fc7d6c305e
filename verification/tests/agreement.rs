use std::path::Path;

use george::cache::is_before;
use george::config::{candidates, filled_lines, split_line, Config, ConfigFormatError};
use george::path::{parent_dir, PathContext};
use george::pretty_path;
use george::text::{chars_of, find_from, matches_at, push_decimal, slice_of, space, text_of, trim};
use george::Mapping;

const SAMPLES: [&str; 24] = [
    "",
    " ",
    "a",
    " a ",
    "\ta -> b\t",
    "a->b",
    "a -> b -> c",
    "->",
    "-> ->",
    "a - > b",
    "a -- b",
    "\u{a0}x\u{2003}->\u{3000}y\u{85}",
    "x \u{200b} -> y",
    "name -> target\n~/.config -> my-config\n\nfrom/here/ -> to/there\n",
    "\nfoo -> bar\nfox -- tox\n",
    "a -> b\r\nc -> d\r\n",
    "a -> b\rc -> d",
    "a -> b\r",
    "\r\n",
    "\r",
    "a -> b\n\n\n",
    "\n\n->\n",
    "é -> ü\nß->→",
    "   \n a -> b",
];

fn ctx() -> PathContext {
    PathContext::new(Some("/home/user".to_string()), "/work".to_string()).unwrap()
}

#[test]
fn white_space_is_what_std_calls_white_space() {
    for code in 0..=0x10ffffu32 {
        if let Some(c) = char::from_u32(code) {
            assert_eq!(space(c), c.is_whitespace(), "U+{code:04X}");
        }
    }
}

#[test]
fn trim_agrees_with_std() {
    for s in SAMPLES {
        for line in s.split('\n') {
            let chars: Vec<char> = line.chars().collect();
            assert_eq!(trim(&chars), line.trim(), "{line:?}");
        }
    }
}

#[test]
fn chars_and_text_go_back_and_forth() {
    for s in SAMPLES {
        let chars = chars_of(s);
        assert_eq!(chars, s.chars().collect::<Vec<char>>());
        assert_eq!(text_of(&chars, 0, chars.len()), s);
        assert_eq!(slice_of(&chars, 0, chars.len()), chars);
    }
    let chars = chars_of("abcdef");
    assert_eq!(text_of(&chars, 2, 4), "cd");
    assert_eq!(text_of(&chars, 3, 3), "");
    assert_eq!(slice_of(&chars, 1, 3), vec!['b', 'c']);
}

#[test]
fn find_agrees_with_std() {
    let needles = ["", "a", "->", " ", "b\n", "\n\n", "zzz"];
    for s in SAMPLES {
        let hay: Vec<char> = s.chars().collect();
        for n in needles {
            let needle: Vec<char> = n.chars().collect();
            let expected = s.find(n).map(|byte| s[..byte].chars().count());
            assert_eq!(find_from(&hay, &needle, 0), expected, "{n:?} in {s:?}");
        }
    }
}

#[test]
fn find_starts_where_it_is_told() {
    let hay: Vec<char> = "abcabc".chars().collect();
    let needle: Vec<char> = "bc".chars().collect();
    assert_eq!(find_from(&hay, &needle, 0), Some(1));
    assert_eq!(find_from(&hay, &needle, 1), Some(1));
    assert_eq!(find_from(&hay, &needle, 2), Some(4));
    assert_eq!(find_from(&hay, &needle, 5), None);
    assert_eq!(find_from(&hay, &needle, 7), None);
    assert_eq!(find_from(&hay, &Vec::new(), 6), Some(6));
    assert!(matches_at(&hay, &needle, 4));
    assert!(!matches_at(&hay, &needle, 5));
    assert!(!matches_at(&hay, &needle, 0));
}

#[test]
fn split_line_agrees_with_std() {
    for s in SAMPLES {
        for line in s.lines() {
            let parts: Vec<&str> = line.split("->").collect();
            let expected = if parts.len() == 2 {
                Some((parts[0].trim().to_string(), parts[1].trim().to_string()))
            } else {
                None
            };
            assert_eq!(split_line(line), expected, "{line:?}");
        }
    }
}

#[test]
fn lines_agree_with_std() {
    for s in SAMPLES {
        let expected: Vec<&str> = s.lines().filter(|l| !l.is_empty()).collect();
        assert_eq!(filled_lines(s), expected, "{s:?}");
    }
}

fn read_with_std(content: &str) -> Result<Vec<Mapping>, ConfigFormatError> {
    let mut mappings = Vec::new();
    for (i, line) in content.lines().filter(|l| !l.is_empty()).enumerate() {
        let mapping: Vec<&str> = line.split("->").collect();
        if mapping.len() != 2 {
            return Err(ConfigFormatError::new(line, i + 1));
        }
        let name = mapping[0].trim();
        let target = mapping[1].trim();
        mappings.push(Mapping::new(name, target, &ctx()));
    }
    Ok(mappings)
}

#[test]
fn build_agrees_with_std() {
    for s in SAMPLES {
        let found = Config::build(s, &ctx()).map(|c| c.mappings().clone());
        assert_eq!(found, read_with_std(s), "{s:?}");
    }
}

#[test]
fn parent_agrees_with_std_on_plain_paths() {
    let paths = ["/", "/a", "/a/b", "/a/b/c.txt", "/home/user/.config/nvim/init.lua", "a", "a/b", ""];
    for p in paths {
        let expected = Path::new(p).parent().map(|d| d.to_str().unwrap().to_string());
        assert_eq!(parent_dir(p), expected, "{p:?}");
    }
}

#[test]
fn candidates_agree_with_std() {
    for cwd in ["/", "/a", "/home/user/dots", "/a/b/c/d/e"] {
        let expected: Vec<String> = Path::new(cwd)
            .ancestors()
            .map(|d| d.join(".george").to_str().unwrap().to_string())
            .collect();
        assert_eq!(candidates(cwd), expected, "{cwd:?}");
    }
}

#[test]
fn pretty_path_agrees_with_std() {
    let homes = ["/home/user", "/", "", "user", "/home/user/"];
    let paths = ["/home/user/.vimrc", "/home/user", "/etc", "/mnt/home/user/home/user", "", "user"];
    for h in homes {
        for p in paths {
            assert_eq!(pretty_path(p, Some(h)), p.replacen(h, "~", 1), "{p:?} {h:?}");
        }
    }
}

#[test]
fn decimal_agrees_with_std() {
    for n in [0usize, 1, 9, 10, 11, 99, 100, 101, 12345, 1_000_000, usize::MAX] {
        let mut s = String::from("n=");
        push_decimal(&mut s, n);
        assert_eq!(s, format!("n={n}"));
    }
}

#[test]
fn byte_order_agrees_with_std() {
    let names = ["", "a", "ab", "b", "2023-05-01 10:00", "2023-05-01 09:59", "é", "z", "ab"];
    for a in names {
        for b in names {
            assert_eq!(is_before(a.as_bytes(), b.as_bytes()), a.as_bytes() < b.as_bytes(), "{a:?} {b:?}");
        }
    }
}
