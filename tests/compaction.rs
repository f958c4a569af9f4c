use varcompact::compact::{compact, replace_all};
use varcompact::names::{decimal, var_name, NameIter};
use varcompact::table::{build_savings_table, candidates, fragments, split_points};
use varcompact::text::{last_part, legalize, shorten, Sep};

fn chars(s: &str) -> Vec<char> {
    s.chars().collect()
}

fn text(v: &[char]) -> String {
    v.iter().collect()
}

fn run(s: &str) -> (Vec<(String, String)>, String) {
    let (bindings, fin) = compact(&chars(s));
    let b = bindings.iter().map(|(n, v)| (text(n), text(v))).collect();
    (b, text(&fin))
}

fn undo(bindings: &[(String, String)], fin: &str) -> String {
    let mut t = fin.to_string();
    for (n, v) in bindings.iter().rev() {
        t = t.replace(&format!("${{{}}}", n), v);
    }
    t
}

fn legal(name: &str) -> bool {
    let mut cs = name.chars();
    match cs.next() {
        Some(c) if c.is_ascii_uppercase() || c == '_' => {}
        _ => return false,
    }
    cs.all(|c| c.is_ascii_uppercase() || c.is_ascii_digit() || c == '_')
}

#[test]
fn scenario_two_paths_share_a_prefix() {
    let input = "cp /home/user/project/src/main.rs /home/user/project/build/main.rs";
    let (b, fin) = run(input);
    assert_eq!(
        b,
        vec![
            ("P".to_string(), "/home/user/project/".to_string()),
            ("M".to_string(), "main.rs".to_string()),
        ]
    );
    assert_eq!(fin, "cp ${P}src/${M} ${P}build/${M}");
    assert_eq!(fin.matches("${P}").count(), 2);
    assert!(!fin.contains("/home/user/project"));
    assert_eq!(undo(&b, &fin), input);
}

#[test]
fn scenario_nothing_repeats() {
    let (b, fin) = run("echo hello world");
    assert!(b.is_empty());
    assert_eq!(fin, "echo hello world");
}

#[test]
fn scenario_compacted_output_is_a_fixed_point() {
    let (b, fin) = run("cp ${P}src/${M} ${P}build/${M}");
    assert!(b.is_empty());
    assert_eq!(fin, "cp ${P}src/${M} ${P}build/${M}");
}

#[test]
fn round_trip_restores_input() {
    let input = "rsync -a /srv/data/archive-2024/a.tar /srv/data/archive-2024/b.tar; ls /srv/data/archive-2024";
    let (b, fin) = run(input);
    assert!(!b.is_empty());
    assert!(fin.len() < input.len());
    assert_eq!(undo(&b, &fin), input);
}

#[test]
fn names_are_legal_and_unique() {
    let input = "x /opt/tool-kit/bin/run /opt/tool-kit/bin/run /var/cache/tool-kit/lib /var/cache/tool-kit/lib";
    let (b, _) = run(input);
    assert!(!b.is_empty());
    for (i, (n, _)) in b.iter().enumerate() {
        assert!(legal(n), "{}", n);
        for (m, _) in b.iter().skip(i + 1) {
            assert_ne!(n, m);
        }
    }
}

#[test]
fn substitutions_save_at_least_two() {
    let input = "cat /usr/share/dict/words /usr/share/dict/words";
    let (b, fin) = run(input);
    assert_eq!(b.len(), 1);
    assert_eq!(b[0].1, "/usr/share/dict/words");
    assert!(input.len() - fin.len() >= 2);
}

#[test]
fn assignment_target_is_not_a_candidate() {
    let c = candidates(&chars("FOO=bar/bar/bar"));
    let texts: Vec<String> = c.iter().map(|v| text(v)).collect();
    assert!(!texts.iter().any(|t| t.contains("FOO")));
    assert!(texts.contains(&"bar/bar/bar".to_string()));
    assert!(texts.contains(&"bar/".to_string()));
}

#[test]
fn fragments_split_on_delimiters_and_assignments() {
    let f = fragments(&chars("a=b;c 'd' \"e\"\tX=Y=z=="));
    let texts: Vec<String> = f.iter().map(|v| text(v)).collect();
    assert_eq!(texts, vec!["b", "c", "d", "e"]);
}

#[test]
fn split_points_mark_alphanumeric_runs() {
    assert_eq!(split_points(&chars("ab/cd")), vec![0, 3, 5]);
    assert_eq!(split_points(&chars("/a//b.c")), vec![0, 1, 4, 6, 7]);
    assert_eq!(split_points(&chars("abc")), vec![0, 3]);
}

#[test]
fn candidates_pair_split_points() {
    let c = candidates(&chars("ab/cd"));
    let texts: Vec<String> = c.iter().map(|v| text(v)).collect();
    assert_eq!(texts, vec!["ab/", "ab/cd", "cd"]);
}

#[test]
fn savings_table_ranks_repeated_candidates() {
    let t = build_savings_table(&Vec::new(), &chars("x /data/set /data/set"));
    let texts: Vec<(String, i128)> = t.iter().map(|(v, s)| (text(v), *s)).collect();
    assert_eq!(texts[0], ("/data/set".to_string(), 2 * (9 - 1 - 3)));
    for w in texts.windows(2) {
        assert!(w[0].1 >= w[1].1);
    }
    assert!(texts.iter().all(|(v, _)| v != "x"));
}

#[test]
fn savings_table_empty_without_repeats() {
    assert!(build_savings_table(&Vec::new(), &chars("echo hello world")).is_empty());
}

#[test]
fn legalize_uppercases_and_guards_digits() {
    assert_eq!(text(&legalize(&chars("a-b.c"))), "A_B_C");
    assert_eq!(text(&legalize(&chars("9lives"))), "_9LIVES");
    assert_eq!(text(&legalize(&chars("abc"))), "ABC");
}

#[test]
fn shorten_keeps_first_character_of_runs() {
    assert_eq!(shorten(&chars("foo-bar"), Sep::Dash).map(|v| text(&v)), Some("FB".to_string()));
    assert_eq!(shorten(&chars("main.rs"), Sep::NonAlnum).map(|v| text(&v)), Some("MR".to_string()));
    assert_eq!(shorten(&chars("usr/local/bin"), Sep::Slash).map(|v| text(&v)), Some("ULB".to_string()));
    assert_eq!(shorten(&chars("--/"), Sep::Dash), None);
}

#[test]
fn last_part_takes_last_component() {
    assert_eq!(last_part(&chars("/a/bc/")).map(|v| text(&v)), Some("BC".to_string()));
    assert_eq!(last_part(&chars("x.y")).map(|v| text(&v)), Some("X_Y".to_string()));
    assert_eq!(last_part(&chars("///")), None);
}

#[test]
fn decimal_writes_digits() {
    assert_eq!(text(&decimal(0)), "0");
    assert_eq!(text(&decimal(1234)), "1234");
}

#[test]
fn name_iter_walks_proposals() {
    let mut it = NameIter::new(&chars("/src/tool-kit.rs"));
    assert_eq!(text(&it.next()), "TK");
    assert_eq!(text(&it.next()), "TKR");
    assert_eq!(text(&it.next()), "T");
    assert_eq!(text(&it.next()), "TOOL_KIT_RS");
    assert_eq!(text(&it.next()), "ST");
    assert_eq!(text(&it.next()), "ST_3");
    assert_eq!(text(&it.next()), "ST_4");
}

#[test]
fn var_name_skips_used_names() {
    let used = vec![chars("M")];
    assert_eq!(text(&var_name(&used, &chars("main.rs"))), "MR");
    let used = vec![chars("X"), chars("X_3")];
    assert_eq!(text(&var_name(&used, &chars("x"))), "X_4");
    assert_eq!(text(&var_name(&Vec::new(), &chars("x"))), "X");
}

#[test]
fn var_name_is_deterministic() {
    let used = vec![chars("P"), chars("PR")];
    let a = var_name(&used, &chars("/home/user/project/"));
    let b = var_name(&used, &chars("/home/user/project/"));
    assert_eq!(a, b);
}

#[test]
fn replace_all_is_leftmost_and_non_overlapping() {
    let r = replace_all(&chars("aaaa-aa"), &chars("aa"), &chars("${A}"));
    assert_eq!(text(&r), "${A}${A}-${A}");
    let r = replace_all(&chars("aaa"), &chars("aa"), &chars("X"));
    assert_eq!(text(&r), "Xa");
}

#[test]
fn ties_go_to_first_occurrence() {
    let (b, fin) = run("xx/aaaa xx/aaaa yy/bbbb yy/bbbb");
    assert_eq!(
        b,
        vec![
            ("A".to_string(), "xx/aaaa".to_string()),
            ("B".to_string(), "yy/bbbb".to_string()),
        ]
    );
    assert_eq!(fin, "${A} ${A} ${B} ${B}");
}

#[test]
fn numbered_names_after_all_proposals_are_used() {
    let used = vec![chars("Q"), chars("Q_3"), chars("Q_4")];
    assert_eq!(text(&var_name(&used, &chars("q"))), "Q_5");
}

#[test]
fn text_without_alphanumerics_falls_back_to_wtf() {
    let mut it = NameIter::new(&chars("-.-"));
    assert_eq!(text(&it.next()), "___");
    assert_eq!(text(&it.next()), "WTF_3");
}

#[test]
fn non_ascii_paths_round_trip() {
    let input = "cp /tmp/über-data/x.txt /tmp/über-data/y.txt";
    let (b, fin) = run(input);
    assert!(!b.is_empty());
    assert_eq!(b[0].1, "/tmp/über-data/");
    assert_eq!(undo(&b, &fin), input);
}
