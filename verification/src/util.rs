use vstd::prelude::*;
use crate::decimal::{float_overflows, float_overflows_text};
use crate::json::{
    field, items_view, lemma_items_view, lemma_items_view_push, obj_insert, obj_remove, Entries,
    JsonMap, JsonNumber, JsonV, JsonValue, NumV,
};
use crate::text::{
    ascii_lower, ascii_lower_char, number_ok, chars_of, float_text, int_text, is_digit, is_float_text, is_special_float_text, special_float_text, i64_text, join, join_texts,
    lemma_nat_text, lemma_trim_plain, nat_text, parse_canonical_int, string_of, texts_view, trim, trim_chars, trim_text, unsigned_part,
    u64_text,
};

verus! {

/// The string under `k` in `v`, or empty.
pub open spec fn str_field(v: JsonV, k: Seq<char>) -> Seq<char> {
    match field(v, k) {
        Some(JsonV::Str(s)) => s,
        _ => Seq::empty(),
    }
}

/// The boolean under `k` in `v`, or false.
pub open spec fn bool_field(v: JsonV, k: Seq<char>) -> bool {
    match field(v, k) {
        Some(JsonV::Bool(b)) => b,
        _ => false,
    }
}

/// The text the editor shows for a number.
pub open spec fn number_shown(n: NumV) -> Seq<char> {
    match n {
        NumV::PosInt(u) => nat_text(u as nat),
        NumV::NegInt(i) => int_text(i as int),
        NumV::Float(t) => t,
    }
}

/// The number under `k` in `v` as the editor shows it, or empty.
pub open spec fn num_field(v: JsonV, k: Seq<char>) -> Seq<char> {
    match field(v, k) {
        Some(JsonV::Num(n)) => number_shown(n),
        _ => Seq::empty(),
    }
}

/// The value reached from `v` through the keys of `path`, each step into an object.
pub open spec fn path_get(v: JsonV, path: Seq<Seq<char>>) -> Option<JsonV>
    decreases path.len(),
{
    if path.len() == 0 {
        Some(v)
    } else {
        match path_get(v, path.drop_last()) {
            Some(x) => field(x, path.last()),
            None => None,
        }
    }
}

/// The views of the keys of a path.
pub open spec fn path_view(path: Seq<&str>) -> Seq<Seq<char>> {
    path.map_values(|p: &str| p@)
}

/// The strings among `items`, in order.
pub open spec fn string_items(items: Seq<JsonV>) -> Seq<Seq<char>>
    decreases items.len(),
{
    if items.len() == 0 {
        Seq::empty()
    } else {
        let r = string_items(items.drop_last());
        match items.last() {
            JsonV::Str(s) => r.push(s),
            _ => r,
        }
    }
}

/// The list separator the editor shows between items.
pub open spec fn list_sep() -> Seq<char> {
    seq![',', ' ']
}

pub open spec fn nested_str_spec(v: JsonV, path: Seq<Seq<char>>) -> Seq<char> {
    match path_get(v, path) {
        Some(JsonV::Str(s)) => s,
        _ => Seq::empty(),
    }
}

pub open spec fn nested_num_spec(v: JsonV, path: Seq<Seq<char>>) -> Seq<char> {
    match path_get(v, path) {
        Some(JsonV::Num(n)) => number_shown(n),
        _ => Seq::empty(),
    }
}

pub open spec fn nested_list_spec(v: JsonV, path: Seq<Seq<char>>) -> Seq<char> {
    match path_get(v, path) {
        Some(JsonV::Arr(items)) => join(string_items(items), list_sep()),
        _ => Seq::empty(),
    }
}

/// `m` with the string `v` under `k`, or without `k` when `v` is empty.
pub open spec fn set_str_spec(m: Entries, k: Seq<char>, v: Seq<char>) -> Entries {
    if v.len() == 0 {
        obj_remove(m, k)
    } else {
        obj_insert(m, k, JsonV::Str(v))
    }
}

pub open spec fn is_i64(i: int) -> bool {
    i64::MIN <= i <= i64::MAX
}

/// The number model of an integer, split by sign as JSON numbers are.
pub open spec fn int_num(i: int) -> NumV {
    if i >= 0 {
        NumV::PosInt(i as u64)
    } else {
        NumV::NegInt(i as i64)
    }
}

/// The text is exactly the decimal text of a 64-bit integer.
pub open spec fn is_int_text(t: Seq<char>) -> bool {
    exists|i: int| is_i64(i) && int_text(i) == t
}

/// The number a text field stands for: an integer when the trimmed text is an
/// integer's exact decimal text, else a float when std reads it as a finite one, else
/// null when std reads it as an infinite float or NaN (a JSON value holds such a float
/// as null); no value for any other text.
pub open spec fn parse_number_spec(v: Seq<char>) -> Option<JsonV> {
    let t = trim(v);
    if t.len() == 0 {
        None
    } else if is_int_text(t) {
        Some(JsonV::Num(int_num(choose|i: int| is_i64(i) && int_text(i) == t)))
    } else if float_text(t) && !float_overflows(t) {
        Some(JsonV::Num(NumV::Float(t)))
    } else if float_text(t) || special_float_text(t) {
        Some(JsonV::Null)
    } else {
        None
    }
}

/// `m` with the number that `v` stands for under `k`, or without `k`.
pub open spec fn set_num_spec(m: Entries, k: Seq<char>, v: Seq<char>) -> Entries {
    match parse_number_spec(v) {
        Some(n) => obj_insert(m, k, n),
        None => obj_remove(m, k),
    }
}

pub proof fn lemma_int_text_injective(i: int, j: int)
    requires
        int_text(i) == int_text(j),
    ensures
        i == j,
{
    if i < 0 {
        lemma_nat_text((-i) as nat);
    } else {
        lemma_nat_text(i as nat);
    }
    if j < 0 {
        lemma_nat_text((-j) as nat);
    } else {
        lemma_nat_text(j as nat);
    }
    if i < 0 && j < 0 {
        assert(int_text(i).drop_first() =~= nat_text((-i) as nat));
        assert(int_text(j).drop_first() =~= nat_text((-j) as nat));
    } else if i < 0 {
        assert(int_text(i)[0] == '-');
        assert(is_digit(int_text(j)[0]));
    } else if j < 0 {
        assert(int_text(j)[0] == '-');
        assert(is_digit(int_text(i)[0]));
    }
}

/// The string under `k` in `v`, or empty.
pub fn str_at<'a>(v: &'a JsonValue, k: &str) -> (r: &'a str)
    ensures
        r@ == str_field(v@, k@),
{
    proof {
        reveal_strlit("");
    }
    match v.get(k) {
        Some(JsonValue::Str(s)) => s.as_str(),
        _ => "",
    }
}

/// The boolean under `k` in `v`, or false.
pub fn bool_at(v: &JsonValue, k: &str) -> (r: bool)
    ensures
        r == bool_field(v@, k@),
{
    match v.get(k) {
        Some(JsonValue::Bool(b)) => *b,
        _ => false,
    }
}

/// The text the editor shows for a number.
pub fn number_text(n: &JsonNumber) -> (r: String)
    ensures
        r@ == number_shown(n@),
{
    match n {
        JsonNumber::PosInt(u) => u64_text(*u),
        JsonNumber::NegInt(i) => i64_text(*i),
        JsonNumber::Float(t) => t.clone(),
    }
}

/// The number under `k` in `v` as the editor shows it, or empty.
pub fn num_at(v: &JsonValue, k: &str) -> (r: String)
    ensures
        r@ == num_field(v@, k@),
{
    match v.get(k) {
        Some(JsonValue::Number(n)) => number_text(n),
        _ => String::new(),
    }
}

/// The value reached from `v` through the keys of `path`.
pub fn nested_get<'a>(v: &'a JsonValue, path: &[&str]) -> (r: Option<&'a JsonValue>)
    ensures
        match r {
            Some(x) => path_get(v@, path_view(path@)) == Some(x@),
            None => path_get(v@, path_view(path@)) is None,
        },
{
    let mut cur: &JsonValue = v;
    let n = path.len();
    let mut i: usize = 0;
    while i < n
        invariant
            n == path@.len(),
            i <= n,
            path_get(v@, path_view(path@.take(i as int))) == Some(cur@),
        decreases n - i,
    {
        let p: &str = path[i];
        proof {
            let pv = path_view(path@.take(i + 1));
            assert(pv.drop_last() =~= path_view(path@.take(i as int)));
            assert(pv.last() == p@);
        }
        match cur.get(p) {
            Some(x) => {
                cur = x;
            },
            None => {
                proof {
                    assert(path_view(path@).take(i + 1) =~= path_view(path@.take(i + 1)));
                    lemma_path_none(v@, path_view(path@), i + 1);
                }
                return None;
            },
        }
        i = i + 1;
    }
    assert(path@.take(n as int) =~= path@);
    Some(cur)
}

proof fn lemma_path_none(v: JsonV, path: Seq<Seq<char>>, k: int)
    requires
        0 <= k <= path.len(),
        path_get(v, path.take(k)) is None,
    ensures
        path_get(v, path) is None,
    decreases path.len() - k,
{
    if k < path.len() {
        assert(path.drop_last().take(k) =~= path.take(k));
        lemma_path_none(v, path.drop_last(), k);
    } else {
        assert(path.take(k) =~= path);
    }
}

/// The string at the end of `path`, or empty.
pub fn nested_str<'a>(v: &'a JsonValue, path: &[&str]) -> (r: &'a str)
    ensures
        r@ == nested_str_spec(v@, path_view(path@)),
{
    proof {
        reveal_strlit("");
    }
    match nested_get(v, path) {
        Some(JsonValue::Str(s)) => s.as_str(),
        _ => "",
    }
}

/// The number at the end of `path` as the editor shows it, or empty.
pub fn nested_num(v: &JsonValue, path: &[&str]) -> (r: String)
    ensures
        r@ == nested_num_spec(v@, path_view(path@)),
{
    match nested_get(v, path) {
        Some(JsonValue::Number(n)) => number_text(n),
        _ => String::new(),
    }
}

/// The strings of the array at the end of `path`, joined with ", ", or empty.
pub fn nested_list_str(v: &JsonValue, path: &[&str]) -> (r: String)
    ensures
        r@ == nested_list_spec(v@, path_view(path@)),
{
    match nested_get(v, path) {
        Some(JsonValue::Array(items)) => {
            let mut strs: Vec<String> = Vec::new();
            let n = items.len();
            let mut i: usize = 0;
            proof {
                lemma_items_view(items@);
            }
            while i < n
                invariant
                    n == items.len(),
                    i <= n,
                    texts_view(strs@) == string_items(items_view(items@.take(i as int))),
                decreases n - i,
            {
                proof {
                    let iv = items_view(items@.take(i + 1));
                    lemma_items_view_push(items@.take(i as int), items@[i as int]);
                    assert(items@.take(i as int).push(items@[i as int]) =~= items@.take(i + 1));
                    assert(iv.drop_last() =~= items_view(items@.take(i as int)));
                }
                match &items[i] {
                    JsonValue::Str(s) => {
                        strs.push(s.clone());
                        assert(texts_view(strs@) =~= string_items(
                            items_view(items@.take(i as int)),
                        ).push(s@));
                    },
                    _ => {},
                }
                i = i + 1;
            }
            assert(items@.take(n as int) =~= items@);
            proof {
                reveal_strlit(", ");
                assert(", "@ =~= list_sep());
            }
            join_texts(&strs, ", ")
        },
        _ => String::new(),
    }
}

/// Sets `k` to the string `v`, or removes `k` when `v` is empty.
pub fn set_str(m: &mut JsonMap, k: &str, v: &str)
    ensures
        final(m)@ == set_str_spec(old(m)@, k@, v@),
{
    if v.is_empty() {
        m.remove(k);
    } else {
        m.insert(String::from_str(k), JsonValue::Str(String::from_str(v)));
    }
}

/// The number a text field stands for.
pub fn parse_number_text(v: &str) -> (r: Option<JsonValue>)
    ensures
        match r {
            Some(x) => parse_number_spec(v@) == Some(x@),
            None => parse_number_spec(v@) is None,
        },
{
    let cs = chars_of(v);
    let t = trim_chars(&cs);
    if t.len() == 0 {
        return None;
    }
    match parse_canonical_int(&t) {
        Some(i) => {
            proof {
                let c = choose|j: int| is_i64(j) && int_text(j) == t@;
                assert(is_i64(i as int) && int_text(i as int) == t@);
                lemma_int_text_injective(c, i as int);
            }
            if i >= 0 {
                Some(JsonValue::Number(JsonNumber::PosInt(i as u64)))
            } else {
                Some(JsonValue::Number(JsonNumber::NegInt(i)))
            }
        },
        None => {
            let digits = is_float_text(&t);
            if digits && !float_overflows_text(&t) {
                Some(JsonValue::Number(JsonNumber::Float(string_of(&t))))
            } else if digits || is_special_float_text(&t) {
                Some(JsonValue::Null)
            } else {
                None
            }
        },
    }
}

/// Sets `k` to the number that `v` stands for, or removes `k` when it stands for none.
pub fn set_num_opt(m: &mut JsonMap, k: &str, v: &str)
    ensures
        final(m)@ == set_num_spec(old(m)@, k@, v@),
{
    match parse_number_text(v) {
        Some(n) => m.insert(String::from_str(k), n),
        None => m.remove(k),
    }
}

} // verus!

verus! {

/// A path in the Linux file system of WSL: it starts with '/' and holds no ':'.
pub open spec fn wsl_path(p: Seq<char>) -> bool {
    p.len() > 0 && p[0] == '/' && (forall|i: int| 0 <= i < p.len() ==> p[i] != ':')
}

/// Whether `path` names a file inside WSL rather than a Windows path.
pub fn is_wsl_path(path: &str) -> (r: bool)
    ensures
        r == wsl_path(path@),
{
    let cs = chars_of(path);
    if cs.len() == 0 || cs[0] != '/' {
        return false;
    }
    let n = cs.len();
    let mut i: usize = 0;
    while i < n
        invariant
            n == cs.len(),
            cs@ == path@,
            i <= n,
            forall|j: int| 0 <= j < i ==> cs@[j] != ':',
        decreases n - i,
    {
        if cs[i] == ':' {
            return false;
        }
        i = i + 1;
    }
    true
}

pub open spec fn is_ascii_alpha(c: char) -> bool {
    (65 <= (c as u32) <= 90) || (97 <= (c as u32) <= 122)
}

/// `s` without the copies of `c` it starts with.
pub open spec fn strip_leading(s: Seq<char>, c: char) -> Seq<char>
    decreases s.len(),
{
    if s.len() > 0 && s[0] == c {
        strip_leading(s.drop_first(), c)
    } else {
        s
    }
}

/// A Windows drive path `X:rest` as its WSL mount path `/mnt/x/rest`; any other text unchanged.
pub open spec fn wsl_form(p: Seq<char>) -> Seq<char> {
    if p.len() >= 2 && is_ascii_alpha(p[0]) && p[1] == ':' {
        seq!['/', 'm', 'n', 't', '/', ascii_lower(p[0]), '/'] + strip_leading(
            strip_leading(p.skip(2), '/'),
            '\\',
        )
    } else {
        p
    }
}

proof fn lemma_strip_leading(s: Seq<char>, c: char, k: int)
    requires
        0 <= k <= s.len(),
        forall|j: int| 0 <= j < k ==> s[j] == c,
        k == s.len() || s[k] != c,
    ensures
        strip_leading(s, c) == s.skip(k),
    decreases k,
{
    if k > 0 {
        lemma_strip_leading(s.drop_first(), c, k - 1);
        assert(s.drop_first().skip(k - 1) =~= s.skip(k));
    } else {
        assert(s.skip(0) =~= s);
    }
}

/// A Windows drive path as its WSL mount path; any other path unchanged.
pub fn win_to_wsl(path: &str) -> (r: String)
    ensures
        r@ == wsl_form(path@),
{
    let cs = chars_of(path);
    let n = cs.len();
    if n >= 2 {
        let u = cs[0] as u32;
        if ((65 <= u && u <= 90) || (97 <= u && u <= 122)) && cs[1] == ':' {
            let mut k: usize = 2;
            while k < n && cs[k] == '/'
                invariant
                    2 <= k <= n,
                    n == cs.len(),
                    forall|j: int| 2 <= j < k ==> cs@[j] == '/',
                decreases n - k,
            {
                k = k + 1;
            }
            let k1 = k;
            while k < n && cs[k] == '\\'
                invariant
                    k1 <= k <= n,
                    n == cs.len(),
                    forall|j: int| k1 <= j < k ==> cs@[j] == '\\',
                decreases n - k,
            {
                k = k + 1;
            }
            proof {
                let s2 = cs@.skip(2);
                lemma_strip_leading(s2, '/', k1 - 2);
                let s3 = s2.skip(k1 - 2);
                assert(s3 =~= cs@.skip(k1 as int));
                lemma_strip_leading(s3, '\\', k - k1);
                assert(s3.skip(k - k1) =~= cs@.skip(k as int));
            }
            let mut out: Vec<char> = Vec::new();
            out.push('/');
            out.push('m');
            out.push('n');
            out.push('t');
            out.push('/');
            out.push(ascii_lower_char(cs[0]));
            out.push('/');
            let ghost head = out@;
            let mut j: usize = k;
            while j < n
                invariant
                    k <= j <= n,
                    n == cs.len(),
                    out@ == head + cs@.subrange(k as int, j as int),
                decreases n - j,
            {
                out.push(cs[j]);
                assert(cs@.subrange(k as int, j as int).push(cs@[j as int]) =~= cs@.subrange(
                    k as int,
                    j + 1,
                ));
                assert((head + cs@.subrange(k as int, j as int)).push(cs@[j as int]) =~= head
                    + cs@.subrange(k as int, j + 1));
                j = j + 1;
            }
            proof {
                assert(cs@.subrange(k as int, n as int) =~= cs@.skip(k as int));
                assert(head =~= seq!['/', 'm', 'n', 't', '/', ascii_lower(path@[0]), '/']);
            }
            return string_of(&out);
        }
    }
    string_of(&cs)
}

} // verus!

verus! {

/// The file `file` in the opencode configuration folder under the home folder `home`.
pub open spec fn config_file(home: Seq<char>, file: Seq<char>) -> Seq<char> {
    home + "\\.config\\opencode"@ + "\\"@ + file
}

/// The path of the file `file` in the opencode configuration folder under `home`.
pub fn config_file_path(home: &str, file: &str) -> (r: String)
    ensures
        r@ == config_file(home@, file@),
{
    let mut s = String::from_str(home);
    s.append("\\.config\\opencode");
    s.append("\\");
    s.append(file);
    s
}

/// The configuration file to open: the path the environment names, when it names one;
/// else, under the home folder, `opencode.json` if it exists, then `opencode.jsonc` if
/// it exists, then `opencode.json`; nothing without a home folder.
pub open spec fn picked_config(
    env_path: Option<&str>,
    home: Option<&str>,
    json_exists: bool,
    jsonc_exists: bool,
) -> Option<Seq<char>> {
    if env_path is Some && env_path->0@.len() > 0 {
        Some(env_path->0@)
    } else if home is None {
        None
    } else if json_exists {
        Some(config_file(home->0@, "opencode.json"@))
    } else if jsonc_exists {
        Some(config_file(home->0@, "opencode.jsonc"@))
    } else {
        Some(config_file(home->0@, "opencode.json"@))
    }
}

/// The configuration file to open, from the path the environment names, the home folder,
/// and whether `opencode.json` and `opencode.jsonc` exist there.
pub fn pick_config_path(
    env_path: Option<&str>,
    home: Option<&str>,
    json_exists: bool,
    jsonc_exists: bool,
) -> (r: Option<String>)
    ensures
        r is Some == picked_config(env_path, home, json_exists, jsonc_exists) is Some,
        r is Some ==> r->0@ == picked_config(env_path, home, json_exists, jsonc_exists)->0,
{
    if let Some(p) = env_path {
        if !p.is_empty() {
            return Some(String::from_str(p));
        }
    }
    match home {
        None => None,
        Some(h) => {
            if json_exists {
                Some(config_file_path(h, "opencode.json"))
            } else if jsonc_exists {
                Some(config_file_path(h, "opencode.jsonc"))
            } else {
                Some(config_file_path(h, "opencode.json"))
            }
        },
    }
}

/// `s` with each backslash turned into a slash.
pub open spec fn forward_slashes(s: Seq<char>) -> Seq<char> {
    s.map_values(|c: char| if c == '\\' { '/' } else { c })
}

/// The WSL path of a Windows temporary file: backslashes made slashes, then the drive mounted.
pub fn wsl_temp_path(tmp: &str) -> (r: String)
    ensures
        r@ == wsl_form(forward_slashes(tmp@)),
{
    let cs = chars_of(tmp);
    let mut out: Vec<char> = Vec::new();
    let n = cs.len();
    let mut i: usize = 0;
    while i < n
        invariant
            n == cs.len(),
            cs@ == tmp@,
            i <= n,
            out@ == forward_slashes(cs@.take(i as int)),
        decreases n - i,
    {
        let c = cs[i];
        out.push(if c == '\\' { '/' } else { c });
        assert(forward_slashes(cs@.take(i + 1)) =~= forward_slashes(cs@.take(i as int)).push(
            if c == '\\' { '/' } else { c },
        ));
        i = i + 1;
    }
    assert(cs@.take(n as int) =~= cs@);
    let s = string_of(&out);
    win_to_wsl(s.as_str())
}

/// What a file dialog printed, trimmed; nothing when that is empty.
pub fn dialog_choice(out: &str) -> (r: Option<String>)
    ensures
        r is Some == (trim(out@).len() > 0),
        r is Some ==> r->0@ == trim(out@),
{
    let t = trim_text(out);
    if t.as_str().is_empty() {
        None
    } else {
        Some(t)
    }
}

} // verus!

verus! {

/// A number the editor shows and reads back as the same number: an integer that fits
/// in 64 signed bits, or a float whose text is trimmed, a finite float to std and no
/// integer text.
pub open spec fn reads_back(n: NumV) -> bool {
    match n {
        NumV::PosInt(u) => u <= i64::MAX,
        NumV::NegInt(i) => i < 0,
        NumV::Float(t) => trim(t) == t && float_text(t) && !float_overflows(t) && !is_int_text(t),
    }
}

pub proof fn lemma_int_text_trimmed(i: int)
    ensures
        trim(int_text(i)) == int_text(i),
        int_text(i).len() > 0,
{
    if i < 0 {
        lemma_nat_text((-i) as nat);
        let s = int_text(i);
        assert(s.last() == nat_text((-i) as nat).last());
        lemma_trim_plain(s);
    } else {
        lemma_nat_text(i as nat);
        lemma_trim_plain(int_text(i));
    }
}

/// The text shown for a number that reads back gives that number again.
pub proof fn lemma_number_reads_back(n: NumV)
    requires
        reads_back(n),
    ensures
        parse_number_spec(number_shown(n)) == Some(JsonV::Num(n)),
{
    match n {
        NumV::PosInt(u) => {
            let i = u as int;
            lemma_int_text_trimmed(i);
            assert(number_shown(n) == int_text(i));
            assert(is_i64(i) && int_text(i) == number_shown(n));
            let c = choose|c: int| is_i64(c) && int_text(c) == number_shown(n);
            lemma_int_text_injective(c, i);
        },
        NumV::NegInt(v) => {
            let i = v as int;
            lemma_int_text_trimmed(i);
            assert(is_i64(i) && int_text(i) == number_shown(n));
            let c = choose|c: int| is_i64(c) && int_text(c) == number_shown(n);
            lemma_int_text_injective(c, i);
        },
        NumV::Float(t) => {
            assert(t.len() > 0) by {
                if t.len() == 0 {
                    assert(unsigned_part(t) =~= t);
                    assert(!number_ok(t));
                }
            }
        },
    }
}

} // verus!
