use vstd::prelude::*;

use crate::text::{contains_sub, str_contains, str_eq};

verus! {

/// One suspicious line found by the scanner.
#[derive(Debug)]
pub struct ScanResult {
    pub file: String,
    pub line_number: usize,
    pub line: String,
    pub issue: String,
}

/// The Unicode scalar value of `c`, with ASCII capitals folded to their
/// lowercase counterparts.
pub open spec fn lower_code(c: char) -> u32 {
    if 65 <= (c as u32) && (c as u32) <= 90 {
        ((c as u32) + 32) as u32
    } else {
        (c as u32)
    }
}

/// Whether `pat` occurs in `s` at position `i`, ignoring ASCII case.
pub open spec fn matches_at_ci(s: Seq<char>, pat: Seq<char>, i: int) -> bool {
    0 <= i && i + pat.len() <= s.len() && forall|k: int|
        0 <= k < pat.len() ==> lower_code(s[i + k]) == lower_code(pat[k])
}

/// Whether `pat` occurs anywhere in `s`, ignoring ASCII case.
pub open spec fn contains_ci(s: Seq<char>, pat: Seq<char>) -> bool {
    exists|i: int| matches_at_ci(s, pat, i)
}

/// Whether `a` and `b` are the same up to ASCII case.
pub open spec fn eq_ci(a: Seq<char>, b: Seq<char>) -> bool {
    a.len() == b.len() && forall|k: int| 0 <= k < a.len() ==> lower_code(a[k]) == lower_code(b[k])
}

/// Whether `a` starts with `b`, up to ASCII case.
pub open spec fn starts_with_ci(a: Seq<char>, b: Seq<char>) -> bool {
    a.len() >= b.len() && forall|k: int| 0 <= k < b.len() ==> lower_code(a[k]) == lower_code(b[k])
}

/// Exec fold of one character's code, matching `lower_code`.
fn lower_code_exec(c: char) -> (r: u32)
    ensures
        r == lower_code(c),
{
    let u = c as u32;
    if 65 <= u && u <= 90 {
        u + 32
    } else {
        u
    }
}

/// Whether `pat` occurs in `s` at position `i`, ignoring ASCII case.
fn match_at_ci_exec(s: &str, pat: &str, i: usize) -> (r: bool)
    requires
        i + pat@.len() <= s@.len(),
        s@.len() <= usize::MAX,
    ensures
        r == matches_at_ci(s@, pat@, i as int),
{
    let m = pat.unicode_len();
    let mut k: usize = 0;
    while k < m
        invariant
            k <= m,
            m == pat@.len(),
            i + m <= s@.len(),
            s@.len() <= usize::MAX,
            forall|t: int| 0 <= t < k ==> lower_code(s@[i + t]) == lower_code(pat@[t]),
        decreases m - k,
    {
        if lower_code_exec(s.get_char(i + k)) != lower_code_exec(pat.get_char(k)) {
            return false;
        }
        k = k + 1;
    }
    true
}

/// Whether `pat` occurs anywhere in `s`, ignoring ASCII case.
pub fn contains_ci_exec(s: &str, pat: &str) -> (r: bool)
    ensures
        r == contains_ci(s@, pat@),
{
    let n = s.unicode_len();
    let m = pat.unicode_len();
    if m > n {
        proof {
            assert(forall|i: int| !matches_at_ci(s@, pat@, i));
        }
        return false;
    }
    if m == 0 {
        proof {
            assert(matches_at_ci(s@, pat@, 0));
        }
        return true;
    }
    let mut i: usize = 0;
    while i <= n - m
        invariant
            0 < m <= n,
            n == s@.len(),
            m == pat@.len(),
            i <= n - m + 1,
            forall|t: int| 0 <= t < i ==> !matches_at_ci(s@, pat@, t),
        decreases n - m + 1 - i,
    {
        if match_at_ci_exec(s, pat, i) {
            return true;
        }
        i = i + 1;
    }
    proof {
        assert forall|t: int| true implies !matches_at_ci(s@, pat@, t) by {
            if t > n - m {
                assert(!matches_at_ci(s@, pat@, t));
            }
        }
    }
    false
}

/// The issue reported for a line, if any: the first matching secret
/// pattern wins, compared ignoring ASCII case.
pub open spec fn spec_classify(line: Seq<char>) -> Option<Seq<char>> {
    if contains_ci(line, "password"@) {
        Some("Possible password found"@)
    } else if contains_ci(line, "passwd"@) {
        Some("Possible password found"@)
    } else if contains_ci(line, "secret"@) {
        Some("Possible secret found"@)
    } else if contains_ci(line, "api_key"@) {
        Some("Possible API key found"@)
    } else if contains_ci(line, "apikey"@) {
        Some("Possible API key found"@)
    } else if contains_ci(line, "access_token"@) {
        Some("Possible access token found"@)
    } else if contains_ci(line, "auth_token"@) {
        Some("Possible auth token found"@)
    } else if contains_ci(line, "private_key"@) {
        Some("Possible private key found"@)
    } else if contains_ci(line, "aws_access_key_id"@) {
        Some("AWS Access Key found"@)
    } else if contains_ci(line, "aws_secret_access_key"@) {
        Some("AWS Secret Key found"@)
    } else if contains_ci(line, "database_url"@) {
        Some("Database URL found"@)
    } else if contains_ci(line, "db_password"@) {
        Some("Database password found"@)
    } else if contains_ci(line, "bearer"@) {
        Some("Bearer token found"@)
    } else if contains_ci(line, "BEGIN RSA PRIVATE KEY"@) {
        Some("RSA Private Key found"@)
    } else if contains_ci(line, "BEGIN OPENSSH PRIVATE KEY"@) {
        Some("SSH Private Key found"@)
    } else {
        None
    }
}

/// Classify one line of text against the secret patterns.
pub fn classify_line(line: &str) -> (r: Option<String>)
    ensures
        match r {
            Some(issue) => spec_classify(line@) == Some(issue@),
            None => spec_classify(line@) is None,
        },
{
    if contains_ci_exec(line, "password") {
        Some(String::from_str("Possible password found"))
    } else if contains_ci_exec(line, "passwd") {
        Some(String::from_str("Possible password found"))
    } else if contains_ci_exec(line, "secret") {
        Some(String::from_str("Possible secret found"))
    } else if contains_ci_exec(line, "api_key") {
        Some(String::from_str("Possible API key found"))
    } else if contains_ci_exec(line, "apikey") {
        Some(String::from_str("Possible API key found"))
    } else if contains_ci_exec(line, "access_token") {
        Some(String::from_str("Possible access token found"))
    } else if contains_ci_exec(line, "auth_token") {
        Some(String::from_str("Possible auth token found"))
    } else if contains_ci_exec(line, "private_key") {
        Some(String::from_str("Possible private key found"))
    } else if contains_ci_exec(line, "aws_access_key_id") {
        Some(String::from_str("AWS Access Key found"))
    } else if contains_ci_exec(line, "aws_secret_access_key") {
        Some(String::from_str("AWS Secret Key found"))
    } else if contains_ci_exec(line, "database_url") {
        Some(String::from_str("Database URL found"))
    } else if contains_ci_exec(line, "db_password") {
        Some(String::from_str("Database password found"))
    } else if contains_ci_exec(line, "bearer") {
        Some(String::from_str("Bearer token found"))
    } else if contains_ci_exec(line, "BEGIN RSA PRIVATE KEY") {
        Some(String::from_str("RSA Private Key found"))
    } else if contains_ci_exec(line, "BEGIN OPENSSH PRIVATE KEY") {
        Some(String::from_str("SSH Private Key found"))
    } else {
        None
    }
}

/// Paths the scanner never enters: the tool's own control directory,
/// build output and version-control metadata.
pub open spec fn spec_scan_ignored(p: Seq<char>) -> bool {
    contains_sub(p, ".ark"@) || contains_sub(p, "target"@) || contains_sub(p, ".git"@)
}

/// Whether the scanner skips this path.
pub fn scan_ignored(path: &str) -> (r: bool)
    ensures
        r == spec_scan_ignored(path@),
{
    str_contains(path, ".ark") || str_contains(path, "target") || str_contains(path, ".git")
}

/// The index of the last occurrence of `c` in `s`, or none.
fn rfind_char(s: &str, c: char) -> (r: Option<usize>)
    ensures
        match r {
            Some(i) => i < s@.len() && s@[i as int] == c && forall|j: int|
                i < j < s@.len() ==> s@[j] != c,
            None => forall|j: int| 0 <= j < s@.len() ==> s@[j] != c,
        },
{
    let n = s.unicode_len();
    let mut i: usize = n;
    while i > 0
        invariant
            i <= n,
            n == s@.len(),
            forall|j: int| i <= j < n ==> s@[j] != c,
        decreases i,
    {
        i = i - 1;
        if s.get_char(i) == c {
            return Some(i);
        }
    }
    None
}

/// Which file names the scanner reads: those whose extension is a common
/// configuration or text format, and extensionless names that look like
/// environment files or makefiles. The name is what follows the last
/// path separator; the extension is what follows its last dot, absent
/// when the only dot is the leading one.
pub open spec fn spec_is_scannable(path: Seq<char>, name_from: int, dot: int) -> bool {
    let name = path.subrange(name_from, path.len() as int);
    if dot > 0 {
        let ext = name.subrange(dot + 1, name.len() as int);
        ||| ext == "env"@
        ||| ext == "json"@
        ||| ext == "yaml"@
        ||| ext == "yml"@
        ||| ext == "toml"@
        ||| ext == "ini"@
        ||| ext == "cfg"@
        ||| ext == "conf"@
        ||| ext == "config"@
        ||| ext == "properties"@
        ||| ext == "xml"@
        ||| ext == "txt"@
        ||| ext == "md"@
    } else {
        starts_with_ci(name, ".env"@) || eq_ci(name, "makefile"@)
    }
}

/// The start of the file-name part of `path`: just after the last '/'.
pub open spec fn spec_name_from(path: Seq<char>) -> int {
    if exists|j: int| 0 <= j < path.len() && path[j] == '/' {
        (choose|j: int|
            0 <= j < path.len() && path[j] == '/' && forall|t: int|
                j < t < path.len() ==> path[t] != '/') + 1
    } else {
        0
    }
}

/// The position of the last dot of the file name `name`, or -1.
pub open spec fn spec_last_dot(name: Seq<char>) -> int {
    if exists|j: int| 0 <= j < name.len() && name[j] == '.' {
        choose|j: int|
            0 <= j < name.len() && name[j] == '.' && forall|t: int|
                j < t < name.len() ==> name[t] != '.'
    } else {
        -1
    }
}

/// Whether the scanner reads a file of this path.
pub fn is_scannable(path: &str) -> (r: bool)
    ensures
        r == spec_is_scannable(
            path@,
            spec_name_from(path@),
            spec_last_dot(path@.subrange(spec_name_from(path@), path@.len() as int)),
        ),
{
    let n = path.unicode_len();
    let name_from = match rfind_char(path, '/') {
        Some(i) => {
            proof {
                assert(spec_name_from(path@) == i + 1) by {
                    assert(exists|j: int| 0 <= j < path@.len() && path@[j] == '/');
                    let w = choose|j: int|
                        0 <= j < path@.len() && path@[j] == '/' && forall|t: int|
                            j < t < path@.len() ==> path@[t] != '/';
                    if w != i {
                        assert(path@[w] == '/');
                    }
                }
            }
            i + 1
        },
        None => {
            proof {
                assert(spec_name_from(path@) == 0) by {
                    if exists|j: int| 0 <= j < path@.len() && path@[j] == '/' {
                        let w = choose|j: int| 0 <= j < path@.len() && path@[j] == '/';
                        assert(false);
                    }
                }
            }
            0
        },
    };
    let name = path.substring_char(name_from, n);
    let ghost nm = path@.subrange(name_from as int, path@.len() as int);
    proof {
        assert(name@ == nm);
    }
    let name_len = name.unicode_len();
    let dot: Option<usize> = rfind_char(name, '.');
    match dot {
        Some(d) if d > 0 => {
            proof {
                assert(spec_last_dot(nm) == d) by {
                    assert(exists|j: int| 0 <= j < nm.len() && nm[j] == '.');
                    let w = choose|j: int|
                        0 <= j < nm.len() && nm[j] == '.' && forall|t: int|
                            j < t < nm.len() ==> nm[t] != '.';
                    if w != d {
                        assert(nm[w] == '.');
                    }
                }
            }
            let ext = name.substring_char(d + 1, name_len);
            str_eq(ext, "env") || str_eq(ext, "json") || str_eq(ext, "yaml") || str_eq(ext, "yml")
                || str_eq(ext, "toml") || str_eq(ext, "ini") || str_eq(ext, "cfg") || str_eq(
                ext,
                "conf",
            ) || str_eq(ext, "config") || str_eq(ext, "properties") || str_eq(ext, "xml")
                || str_eq(ext, "txt") || str_eq(ext, "md")
        },
        _ => {
            proof {
                assert(spec_last_dot(nm) <= 0) by {
                    match dot {
                        Some(d) => {
                            assert(d == 0);
                            assert(exists|j: int| 0 <= j < nm.len() && nm[j] == '.');
                            let w = choose|j: int|
                                0 <= j < nm.len() && nm[j] == '.' && forall|t: int|
                                    j < t < nm.len() ==> nm[t] != '.';
                            if w != 0 {
                                assert(nm[w] == '.');
                            }
                        },
                        None => {
                            if exists|j: int| 0 <= j < nm.len() && nm[j] == '.' {
                                let w = choose|j: int| 0 <= j < nm.len() && nm[j] == '.';
                                assert(false);
                            }
                        },
                    }
                }
            }
            // extensionless or leading-dot-only names
            proof {
                reveal_strlit(".env");
                reveal_strlit("makefile");
            }
            let starts_env = if name_len >= 4 {
                match_at_ci_exec(name, ".env", 0)
            } else {
                false
            };
            if starts_env {
                proof {
                    assert(starts_with_ci(nm, ".env"@));
                }
                return true;
            }
            let makefile = if name_len == 8 {
                match_at_ci_exec(name, "makefile", 0)
            } else {
                false
            };
            proof {
                if makefile {
                    assert(eq_ci(nm, "makefile"@));
                }
                if !makefile {
                    if starts_with_ci(nm, ".env"@) {
                        assert(matches_at_ci(nm, ".env"@, 0));
                        assert(false);
                    }
                    if eq_ci(nm, "makefile"@) {
                        assert(matches_at_ci(nm, "makefile"@, 0));
                        assert(false);
                    }
                }
            }
            makefile
        },
    }
}

/// What one line contributes to the report: its path, 1-based line
/// number, text and issue, or nothing.
pub open spec fn spec_scan_line(path: Seq<char>, line: Seq<char>, num: nat) -> Seq<
    (Seq<char>, nat, Seq<char>, Seq<char>),
> {
    match spec_classify(line) {
        Some(issue) => seq![(path, num, line, issue)],
        None => Seq::empty(),
    }
}

/// The report for the lines of one file, in order.
pub open spec fn spec_scan_lines(path: Seq<char>, lines: Seq<String>) -> Seq<
    (Seq<char>, nat, Seq<char>, Seq<char>),
>
    decreases lines.len(),
{
    if lines.len() == 0 {
        Seq::empty()
    } else {
        spec_scan_lines(path, lines.drop_last()) + spec_scan_line(
            path,
            lines.last()@,
            lines.len(),
        )
    }
}

/// The view of one reported finding.
pub open spec fn scan_result_view(r: ScanResult) -> (Seq<char>, nat, Seq<char>, Seq<char>) {
    (r.file@, r.line_number as nat, r.line@, r.issue@)
}

/// The whole report: every scannable, non-ignored file's lines checked in
/// order against the secret patterns.
pub open spec fn spec_scan_files(files: Seq<(String, Vec<String>)>) -> Seq<
    (Seq<char>, nat, Seq<char>, Seq<char>),
>
    decreases files.len(),
{
    if files.len() == 0 {
        Seq::empty()
    } else {
        let path = files.last().0@;
        spec_scan_files(files.drop_last()) + if !spec_scan_ignored(path) && spec_is_scannable(
            path,
            spec_name_from(path),
            spec_last_dot(path.subrange(spec_name_from(path), path.len() as int)),
        ) {
            spec_scan_lines(path, files.last().1@)
        } else {
            Seq::empty()
        }
    }
}

/// Scan the given files, each a path with its lines of text, for likely
/// secrets.
#[verifier::rlimit(100)]
pub fn scan_files(files: &Vec<(String, Vec<String>)>) -> (r: Vec<ScanResult>)
    ensures
        r@.map_values(|sr: ScanResult| scan_result_view(sr)) == spec_scan_files(files@),
{
    let mut out: Vec<ScanResult> = Vec::new();
    proof {
        assert(files@.take(0) =~= Seq::<(String, Vec<String>)>::empty());
        assert(out@.map_values(|sr: ScanResult| scan_result_view(sr)) =~= spec_scan_files(
            files@.take(0),
        ));
    }
    let mut i: usize = 0;
    while i < files.len()
        invariant
            i <= files@.len(),
            out@.map_values(|sr: ScanResult| scan_result_view(sr)) == spec_scan_files(
                files@.take(i as int),
            ),
        decreases files@.len() - i,
    {
        let path = &files[i].0;
        let lines = &files[i].1;
        let ghost pv = path@;
        if !scan_ignored(path.as_str()) && is_scannable(path.as_str()) {
            let ghost out_file_start = out@;
            let mut k: usize = 0;
            proof {
                assert(lines@.take(0) =~= Seq::<String>::empty());
                assert(out@.map_values(|sr: ScanResult| scan_result_view(sr))
                    =~= out_file_start.map_values(|sr: ScanResult| scan_result_view(sr))
                    + spec_scan_lines(pv, lines@.take(0)));
            }
            while k < lines.len()
                invariant
                    k <= lines@.len(),
                    pv == files@[i as int].0@,
                    path@ == pv,
                    i < files@.len(),
                    lines@ == files@[i as int].1@,
                    out@.map_values(|sr: ScanResult| scan_result_view(sr)) == out_file_start.map_values(
                        |sr: ScanResult| scan_result_view(sr),
                    ) + spec_scan_lines(pv, lines@.take(k as int)),
                decreases lines@.len() - k,
            {
                let ghost out_before = out@;
                match classify_line(lines[k].as_str()) {
                    Some(issue) => {
                        let ghost iss = issue@;
                        out.push(
                            ScanResult {
                                file: path.clone(),
                                line_number: k + 1,
                                line: lines[k].clone(),
                                issue,
                            },
                        );
                        proof {
                            let last = out_before.len() as int;
                            assert(out@.len() == out_before.len() + 1);
                            assert(out@[last].file@ == pv);
                            assert(out@[last].line_number == k + 1);
                            assert(out@[last].line@ == lines@[k as int]@);
                            assert(out@[last].issue@ == iss);
                            assert(forall|t: int| 0 <= t < last ==> out@[t] == out_before[t]);
                            assert(scan_result_view(out@[last]) == (
                                pv,
                                (k + 1) as nat,
                                lines@[k as int]@,
                                iss,
                            ));
                            assert(out@.map_values(|sr: ScanResult| scan_result_view(sr))
                                =~= out_before.map_values(|sr: ScanResult| scan_result_view(sr))
                                + seq![(pv, (k + 1) as nat, lines@[k as int]@, iss)]);
                            assert(spec_scan_line(pv, lines@[k as int]@, (k + 1) as nat)
                                =~= seq![(pv, (k + 1) as nat, lines@[k as int]@, iss)]);
                        }
                    },
                    None => {
                        proof {
                            assert(spec_scan_line(pv, lines@[k as int]@, (k + 1) as nat) =~= Seq::<
                                (Seq<char>, nat, Seq<char>, Seq<char>),
                            >::empty());
                        }
                    },
                }
                proof {
                    assert(lines@.take(k + 1).drop_last() =~= lines@.take(k as int));
                    assert(lines@.take(k + 1).last() == lines@[k as int]);
                    assert(lines@.take(k + 1).len() == k + 1);
                    assert(out@.map_values(|sr: ScanResult| scan_result_view(sr))
                        =~= out_file_start.map_values(|sr: ScanResult| scan_result_view(sr))
                        + spec_scan_lines(pv, lines@.take(k + 1)));
                }
                k = k + 1;
            }
            proof {
                assert(lines@.take(lines@.len() as int) =~= lines@);
            }
        }
        proof {
            assert(files@.take(i + 1).drop_last() =~= files@.take(i as int));
            assert(files@.take(i + 1).last() == files@[i as int]);
            assert(out@.map_values(|sr: ScanResult| scan_result_view(sr)) =~= spec_scan_files(
                files@.take(i + 1),
            ));
        }
        i = i + 1;
    }
    proof {
        assert(files@.take(files@.len() as int) =~= files@);
    }
    out
}

} // verus!
