//! The command line of the memory: what its arguments ask for, where the memory is,
//! and which months and years have yet to be summed up.
use crate::agent::{year_month, year_month_of};
use crate::config::{
    cache_path, default_workspace, default_workspace_dir, resolve_cache_dir, Config,
};
use crate::cut::{byte_len, bytes_of};
use crate::dates::{date_from_ts_local, date_of, offset_fits, shifted};
use crate::decimal::{
    all_digits, dec, dec_int, is_digit, padded, parse_signed, parse_unsigned, read_i32, read_u32,
    read_u64, write_i64, write_padded,
};
use crate::lines::{sorted, split, split_str};
use crate::mem_cli::{
    day_name, digits, digits_of, is_year, month_name, only_digits, period_text, piece, read_day, read_month,
    read_year, remark, write_day_name, write_month_name, year_like,
};
use crate::cards::Card;
use crate::paths::{join_path, joined, name_extension, name_stem};
use crate::store::{
    below_dir, dirs_in, entry_views, name_has_extension, stem_len, sub_dir, EntryView, Store,
};
use crate::text::{
    begins, char_index, char_index_chars, find, find_chars, lemma_char_index, lemma_find_least,
    list_has, opt_str, opt_text, starts_with, str_eq, texts, to_chars, trim, trimmed,
};
use vstd::prelude::*;
use vstd::slice::slice_subrange;

verus! {

// ---------------------------------------------------------------------------
// Where the memory is
// ---------------------------------------------------------------------------

/// A flag that says where the memory is.
pub open spec fn is_place_flag(a: Seq<char>) -> bool {
    a == "--cache"@ || a == "--workspace"@
}

fn place_flag(a: &str) -> (r: bool)
    ensures
        r == is_place_flag(a@),
{
    str_eq(a, "--cache") || str_eq(a, "--workspace")
}

/// The arguments without the flags that say where the memory is, and without what
/// stands behind each of them.
pub open spec fn stripped(args: Seq<Seq<char>>) -> Seq<Seq<char>>
    decreases args.len(),
{
    if args.len() == 0 {
        Seq::empty()
    } else if is_place_flag(args[0]) {
        if args.len() == 1 {
            Seq::empty()
        } else {
            stripped(args.skip(2))
        }
    } else {
        seq![args[0]] + stripped(args.skip(1))
    }
}

/// Takes the flags that say where the memory is out of the arguments.
pub fn strip_loc_flag(args: &Vec<String>) -> (r: Vec<String>)
    ensures
        texts(r@) == stripped(texts(args@)),
{
    let ghost all = texts(args@);
    let mut out: Vec<String> = Vec::new();
    let n: usize = args.len();
    let mut i: usize = 0;
    proof {
        assert(all.skip(0) =~= all);
        assert(texts(out@) + stripped(all) =~= stripped(all));
    }
    while i < n
        invariant
            n == args@.len(),
            all == texts(args@),
            i <= n,
            texts(out@) + stripped(all.skip(i as int)) == stripped(all),
        decreases n - i,
    {
        let ghost rest = all.skip(i as int);
        assert(rest[0] == args@[i as int]@);
        if place_flag(args[i].as_str()) {
            if i + 1 == n {
                assert(all.skip(n as int) =~= Seq::empty());
                i = n;
            } else {
                assert(rest.skip(2) =~= all.skip(i + 2));
                i = i + 2;
            }
        } else {
            let ghost before = texts(out@);
            out.push(args[i].clone());
            proof {
                assert(texts(out@) =~= before.push(rest[0]));
                assert(rest.skip(1) =~= all.skip(i + 1));
                assert(before + stripped(rest) =~= texts(out@) + stripped(rest.skip(1)));
            }
            i = i + 1;
        }
    }
    assert(texts(out@) + stripped(all.skip(i as int)) =~= texts(out@));
    out
}

/// No flag that says where the memory is remains, so taking them out once more
/// changes nothing.
pub proof fn lemma_stripped_once(args: Seq<Seq<char>>)
    ensures
        forall|i: int|
            0 <= i < stripped(args).len() ==> !is_place_flag(#[trigger] stripped(args)[i]),
        stripped(stripped(args)) == stripped(args),
    decreases args.len(),
{
    if args.len() > 0 {
        if is_place_flag(args[0]) {
            if args.len() > 1 {
                lemma_stripped_once(args.skip(2));
            }
        } else {
            let rest = stripped(args.skip(1));
            lemma_stripped_once(args.skip(1));
            let all = stripped(args);
            assert(all.skip(1) =~= rest);
            assert forall|i: int| 0 <= i < all.len() implies !is_place_flag(#[trigger] all[i]) by {
                if i > 0 {
                    assert(all[i] == rest[i - 1]);
                }
            }
        }
    }
}

/// The place that the arguments give: what stands behind the first flag for it.
pub open spec fn place_given(args: Seq<Seq<char>>) -> Option<Seq<char>>
    decreases args.len(),
{
    if args.len() == 0 {
        None
    } else if is_place_flag(args[0]) {
        if args.len() > 1 {
            Some(args[1])
        } else {
            None
        }
    } else {
        place_given(args.skip(1))
    }
}

fn given_place(args: &Vec<String>) -> (r: Option<String>)
    ensures
        opt_text(r) == place_given(texts(args@)),
{
    let ghost all = texts(args@);
    let n: usize = args.len();
    let mut i: usize = 0;
    assert(all.skip(0) =~= all);
    while i < n
        invariant
            n == args@.len(),
            all == texts(args@),
            i <= n,
            place_given(all) == place_given(all.skip(i as int)),
        decreases n - i,
    {
        let ghost rest = all.skip(i as int);
        proof {
            assert(rest[0] == args@[i as int]@);
            assert(rest.skip(1) =~= all.skip(i + 1));
        }
        if place_flag(args[i].as_str()) {
            if n - i > 1 {
                assert(rest[1] == args@[i + 1]@);
                return Some(args[i + 1].clone());
            }
            return None;
        }
        i = i + 1;
    }
    None
}

/// The place that the settings in a directory give: none when they do not say it.
pub open spec fn place_in_settings(field: Seq<char>, dir: Seq<char>) -> Option<Seq<char>> {
    if trim(field).len() == 0 {
        None
    } else {
        Some(cache_path(trim(field), dir))
    }
}

/// The place that the settings in a directory give.
pub fn resolve_from_config(field: &str, dir: &str) -> (r: Option<String>)
    ensures
        opt_text(r) == place_in_settings(field@, dir@),
{
    let t = trimmed(field);
    if t.as_str().unicode_len() == 0 {
        return None;
    }
    Some(resolve_cache_dir(t.as_str(), dir))
}

/// What is known of the places around the program: the two variables that may give
/// one, the directory beside the program with what its settings say, the directory
/// for the program's data likewise, and the user's own directories.
#[derive(Debug)]
pub struct Places {
    pub cache_var: Option<String>,
    pub workspace_var: Option<String>,
    pub beside: Option<(String, String)>,
    pub app_data: Option<(String, String)>,
    pub user_profile: Option<String>,
    pub home: Option<String>,
}

/// The place that a directory's settings give, when there is such a directory.
pub open spec fn settings_place(d: Option<(String, String)>) -> Option<Seq<char>> {
    match d {
        Some((dir, field)) => place_in_settings(field@, dir@),
        None => None,
    }
}

fn place_of_settings(d: &Option<(String, String)>) -> (r: Option<String>)
    ensures
        opt_text(r) == settings_place(*d),
{
    match d {
        Some((dir, field)) => resolve_from_config(field.as_str(), dir.as_str()),
        None => None,
    }
}

/// Where the memory is: the first place that is given by the arguments, by a
/// variable, by the settings beside the program, by those in the directory for its
/// data; else a directory in there, or the user's own.
pub open spec fn cache_place(args: Seq<Seq<char>>, p: Places) -> Seq<char> {
    match place_given(args) {
        Some(a) => a,
        None => match p.cache_var {
            Some(v) => v@,
            None => match p.workspace_var {
                Some(v) => v@,
                None => match settings_place(p.beside) {
                    Some(c) => c,
                    None => match settings_place(p.app_data) {
                        Some(c) => c,
                        None => match p.app_data {
                            Some((dir, _)) => joined(dir@, "cache"@),
                            None => default_workspace(
                                opt_text(p.user_profile),
                                opt_text(p.home),
                            ),
                        },
                    },
                },
            },
        },
    }
}

fn as_opt_str(o: &Option<String>) -> (r: Option<&str>)
    ensures
        opt_str(r) == opt_text(*o),
{
    match o {
        Some(s) => Some(s.as_str()),
        None => None,
    }
}

/// Where the memory is.
pub fn resolve_cache(args: &Vec<String>, places: &Places) -> (r: String)
    ensures
        r@ == cache_place(texts(args@), *places),
{
    if let Some(p) = given_place(args) {
        return p;
    }
    if let Some(p) = &places.cache_var {
        return p.clone();
    }
    if let Some(p) = &places.workspace_var {
        return p.clone();
    }
    if let Some(p) = place_of_settings(&places.beside) {
        return p;
    }
    if let Some(p) = place_of_settings(&places.app_data) {
        return p;
    }
    match &places.app_data {
        Some((dir, _field)) => join_path(dir.as_str(), "cache"),
        None => default_workspace_dir(
            as_opt_str(&places.user_profile),
            as_opt_str(&places.home),
        ),
    }
}

/// A place in the arguments goes before every other, whatever is known of them.
pub proof fn lemma_flag_wins(args: Seq<Seq<char>>, p: Places, q: Places)
    requires
        place_given(args) is Some,
    ensures
        cache_place(args, p) == cache_place(args, q),
        Some(cache_place(args, p)) == place_given(args),
{
}

// ---------------------------------------------------------------------------
// Dates
// ---------------------------------------------------------------------------

/// A date with dashes: one with eight or six digits gets them in their places.
pub open spec fn normalized(arg: Seq<char>) -> Seq<char> {
    let d = digits(arg);
    if d.len() == 8 {
        day_name(d.take(4), d.subrange(4, 6), d.subrange(6, 8))
    } else if d.len() == 6 {
        month_name(d.take(4), d.subrange(4, 6))
    } else {
        arg
    }
}

/// A date with dashes.
pub fn normalize_date(arg: &str) -> (r: String)
    ensures
        r@ == normalized(arg@),
{
    let d = digits_of(arg);
    let n: usize = d.as_str().unicode_len();
    if n == 8 {
        assert(d@.subrange(0, 4) =~= d@.take(4));
        write_day_name(
            piece(d.as_str(), 0, 4).as_str(),
            piece(d.as_str(), 4, 6).as_str(),
            piece(d.as_str(), 6, 8).as_str(),
        )
    } else if n == 6 {
        assert(d@.subrange(0, 4) =~= d@.take(4));
        write_month_name(piece(d.as_str(), 0, 4).as_str(), piece(d.as_str(), 4, 6).as_str())
    } else {
        arg.to_owned()
    }
}

/// A number from 1 to a limit.
pub open spec fn is_number_to(s: Seq<char>, max: nat) -> bool {
    parse_unsigned(s, u32::MAX as nat) matches Some(n) && 1 <= n <= max
}

fn number_to(s: &str, max: u32) -> (r: bool)
    ensures
        r == is_number_to(s@, max as nat),
{
    let v = to_chars(s);
    match read_u32(v.as_slice()) {
        Some(n) => 1 <= n && n <= max,
        None => false,
    }
}

/// A number of two digits, from 1 to a limit.
pub open spec fn is_part_to(s: Seq<char>, max: nat) -> bool {
    byte_len(s) == 2 && all_digits(s) && is_number_to(s, max)
}

fn part_to(s: &str, max: u32) -> (r: bool)
    ensures
        r == is_part_to(s@, max as nat),
{
    bytes_of(s) == 2 && only_digits(s) && number_to(s, max)
}

/// A date that can be read: a year, a month or a day, with dashes and in digits.
pub open spec fn is_read_date(arg: Seq<char>) -> bool {
    let parts = split(arg, '-');
    if parts.len() == 1 {
        is_year(parts[0])
    } else if parts.len() == 2 {
        is_year(parts[0]) && is_part_to(parts[1], 12)
    } else if parts.len() == 3 {
        is_year(parts[0]) && is_part_to(parts[1], 12) && is_part_to(parts[2], 31)
    } else {
        false
    }
}

/// Whether a date can be read.
pub fn valid_read_arg(arg: &str) -> (r: bool)
    ensures
        r == is_read_date(arg@),
{
    let parts = split_str(arg, '-');
    let ghost all = texts(parts@);
    let n: usize = parts.len();
    assert(all.len() == n);
    if n == 1 {
        assert(all[0] == parts@[0]@);
        year_like(parts[0].as_str())
    } else if n == 2 {
        assert(all[0] == parts@[0]@ && all[1] == parts@[1]@);
        year_like(parts[0].as_str()) && part_to(parts[1].as_str(), 12)
    } else if n == 3 {
        assert(all[0] == parts@[0]@ && all[1] == parts@[1]@ && all[2] == parts@[2]@);
        year_like(parts[0].as_str()) && part_to(parts[1].as_str(), 12) && part_to(
            parts[2].as_str(),
            31,
        )
    } else {
        false
    }
}

/// A date of which there can be an index, by its digits.
pub open spec fn is_index_date(arg: Seq<char>) -> bool {
    let d = digits(arg);
    if d.len() == 4 {
        true
    } else if d.len() == 6 {
        is_number_to(d.subrange(4, 6), 12)
    } else if d.len() == 8 {
        is_number_to(d.subrange(4, 6), 12) && is_number_to(d.subrange(6, 8), 31)
    } else {
        false
    }
}

/// Whether there can be an index of a date.
pub fn valid_ls_arg(arg: &str) -> (r: bool)
    ensures
        r == is_index_date(arg@),
{
    let d = digits_of(arg);
    let n: usize = d.as_str().unicode_len();
    if n == 4 {
        true
    } else if n == 6 {
        number_to(piece(d.as_str(), 4, 6).as_str(), 12)
    } else if n == 8 {
        number_to(piece(d.as_str(), 4, 6).as_str(), 12) && number_to(
            piece(d.as_str(), 6, 8).as_str(),
            31,
        )
    } else {
        false
    }
}

/// What is read of a date: of a day, a month or a year, by its parts.
pub open spec fn read_text(
    date: Seq<char>,
    records_text: Option<Seq<char>>,
    notes: Option<Seq<char>>,
) -> Seq<char> {
    let parts = split(date, '-');
    if parts.len() == 3 && byte_len(parts[0]) == 4 && byte_len(parts[1]) == 2 && byte_len(
        parts[2],
    ) == 2 {
        period_text(Card::EventText, records_text, notes, remark(date, " 无当天记忆"@))
    } else if parts.len() == 2 && byte_len(parts[0]) == 4 && byte_len(parts[1]) == 2 {
        period_text(Card::MonthText, records_text, notes, remark(date, " 无月级文件"@))
    } else if parts.len() == 1 && is_year(date) {
        period_text(Card::YearText, records_text, notes, remark(date, " 无年级文件"@))
    } else {
        "日期格式应为 YYYY-MM-DD / YYYY-MM / YYYY"@
    }
}

proof fn lemma_one_part(s: Seq<char>)
    ensures
        split(s, '-').len() >= 1,
        split(s, '-').len() == 1 ==> split(s, '-')[0] == s,
{
    lemma_char_index(s, '-');
    if let Some(i) = char_index(s, '-') {
        lemma_one_part_of(s.skip(i + 1));
    }
}

proof fn lemma_one_part_of(s: Seq<char>)
    ensures
        split(s, '-').len() >= 1,
    decreases s.len(),
{
    lemma_char_index(s, '-');
}

/// What is read of a date, by what its files hold.
pub fn read_route(date: &str, records_text: Option<&str>, notes: Option<&str>) -> (r: String)
    ensures
        r@ == read_text(date@, opt_str(records_text), opt_str(notes)),
{
    let parts = split_str(date, '-');
    let ghost all = texts(parts@);
    let n: usize = parts.len();
    proof {
        assert(all.len() == n);
        lemma_one_part(date@);
    }
    if n == 3 {
        assert(all[0] == parts@[0]@ && all[1] == parts@[1]@ && all[2] == parts@[2]@);
        if bytes_of(parts[0].as_str()) == 4 && bytes_of(parts[1].as_str()) == 2 && bytes_of(
            parts[2].as_str(),
        ) == 2 {
            return read_day(date, records_text, notes);
        }
    } else if n == 2 {
        assert(all[0] == parts@[0]@ && all[1] == parts@[1]@);
        if bytes_of(parts[0].as_str()) == 4 && bytes_of(parts[1].as_str()) == 2 {
            return read_month(date, records_text, notes);
        }
    } else if n == 1 {
        assert(all[0] == parts@[0]@);
        if year_like(date) {
            return read_year(date, records_text, notes);
        }
    }
    "日期格式应为 YYYY-MM-DD / YYYY-MM / YYYY".to_owned()
}

// ---------------------------------------------------------------------------
// The range of events
// ---------------------------------------------------------------------------

/// Two numbers, when both are.
pub open spec fn both(a: Seq<char>, b: Seq<char>) -> Option<(u64, u64)> {
    match (parse_unsigned(a, u64::MAX as nat), parse_unsigned(b, u64::MAX as nat)) {
        (Some(x), Some(y)) => Some((x as u64, y as u64)),
        _ => None,
    }
}

/// The range that a text gives: two numbers with two dots between them, or a comma.
pub open spec fn range_of(v: Seq<char>) -> Option<(u64, u64)> {
    match find(v, ".."@) {
        Some(i) => both(v.take(i), v.skip(i + 2)),
        None => match char_index(v, ',') {
            Some(i) => both(v.take(i), v.skip(i + 1)),
            None => None,
        },
    }
}

/// The range that arguments give: behind the first flag for it.
pub open spec fn range_given(args: Seq<Seq<char>>) -> Option<(u64, u64)>
    decreases args.len(),
{
    if args.len() == 0 {
        None
    } else if args[0] == "--seq"@ {
        if args.len() > 1 {
            range_of(args[1])
        } else {
            None
        }
    } else {
        range_given(args.skip(1))
    }
}

fn read_both(a: &[char], b: &[char]) -> (r: Option<(u64, u64)>)
    ensures
        r == both(a@, b@),
{
    match read_u64(a) {
        Some(x) => match read_u64(b) {
            Some(y) => Some((x, y)),
            None => None,
        },
        None => None,
    }
}

fn read_range(s: &str) -> (r: Option<(u64, u64)>)
    ensures
        r == range_of(s@),
{
    let v = to_chars(s);
    let p = to_chars("..");
    let n: usize = v.len();
    proof {
        reveal_strlit("..");
        lemma_find_least(s@, ".."@, 0);
        lemma_char_index(s@, ',');
    }
    match find_chars(v.as_slice(), p.as_slice(), 0) {
        Some(i) => {
            proof {
                assert(v@.subrange(0, i as int) =~= v@.take(i as int));
                assert(v@.subrange(i + 2, n as int) =~= v@.skip(i + 2));
            }
            read_both(
                slice_subrange(v.as_slice(), 0, i),
                slice_subrange(v.as_slice(), i + 2, n),
            )
        },
        None => match char_index_chars(v.as_slice(), ',') {
            Some(i) => {
                proof {
                    assert(v@.subrange(0, i as int) =~= v@.take(i as int));
                    assert(v@.subrange(i + 1, n as int) =~= v@.skip(i + 1));
                }
                read_both(
                    slice_subrange(v.as_slice(), 0, i),
                    slice_subrange(v.as_slice(), i + 1, n),
                )
            },
            None => None,
        },
    }
}

/// The range that arguments give.
pub fn parse_seq_flag(args: &Vec<String>) -> (r: Option<(u64, u64)>)
    ensures
        r == range_given(texts(args@)),
{
    let ghost all = texts(args@);
    let n: usize = args.len();
    let mut i: usize = 0;
    assert(all.skip(0) =~= all);
    while i < n
        invariant
            n == args@.len(),
            all == texts(args@),
            i <= n,
            range_given(all) == range_given(all.skip(i as int)),
        decreases n - i,
    {
        let ghost rest = all.skip(i as int);
        proof {
            assert(rest[0] == args@[i as int]@);
            assert(rest.skip(1) =~= all.skip(i + 1));
        }
        if str_eq(args[i].as_str(), "--seq") {
            if n - i > 1 {
                assert(rest[1] == args@[i + 1]@);
                return read_range(args[i + 1].as_str());
            }
            return None;
        }
        i = i + 1;
    }
    None
}

// ---------------------------------------------------------------------------
// Commands
// ---------------------------------------------------------------------------

/// What the arguments ask for: something to say and a code to end with, or
/// something of the memory.
#[derive(Debug)]
pub enum Request {
    Say(String, i32),
    Ls(Option<String>),
    Read(String),
    History(String, Option<(u64, u64)>),
    Search(String, bool),
    Pack,
}

/// What a request holds.
pub enum RequestView {
    Say(Seq<char>, i32),
    Ls(Option<Seq<char>>),
    Read(Seq<char>),
    History(Seq<char>, Option<(u64, u64)>),
    Search(Seq<char>, bool),
    Pack,
}

impl View for Request {
    type V = RequestView;

    open spec fn view(&self) -> RequestView {
        match *self {
            Request::Say(s, c) => RequestView::Say(s@, c),
            Request::Ls(a) => RequestView::Ls(opt_text(a)),
            Request::Read(d) => RequestView::Read(d@),
            Request::History(d, r) => RequestView::History(d@, r),
            Request::Search(q, raw) => RequestView::Search(q@, raw),
            Request::Pack => RequestView::Pack,
        }
    }
}

/// How the command line is used.
pub const USAGE: &'static str = "mem —— 记忆深思（零 LLM 只读 drill）\n\n用法:\n  mem ls [年/月/日]                 列索引：2026→各月+月主题；202607→各日+日概括；20260731→各事件+seq\n  mem read <年/月/日>               读整理后记忆：2026→年主题；2026-07→月主题+日概括；2026-07-30→事件段\n  mem history <date> [--seq a..b]    读原始对话（可按 seq 过滤）\n  mem search <query> [--raw]         关键字 grep（默认 memory/，--raw 扩到 history）\n\ncache 定位: --cache > $OVOICE_CACHE > (--workspace/$OVOICE_WORKSPACE 别名) > next-to-exe config > %APPDATA% config > %APPDATA%/cache";

/// How the command line is used.
pub fn usage() -> (r: String)
    ensures
        r@ == USAGE@,
{
    USAGE.to_owned()
}

/// The argument at a place, when there is one.
pub open spec fn arg_at(args: Seq<Seq<char>>, i: int) -> Option<Seq<char>> {
    if i < args.len() {
        Some(args[i])
    } else {
        None
    }
}

/// The argument at a place, nothing when there is none.
pub open spec fn arg_or_empty(args: Seq<Seq<char>>, i: int) -> Seq<char> {
    crate::text::text_or_empty(arg_at(args, i))
}

/// What the arguments ask for: the first behind the program's name is the command.
pub open spec fn request(args: Seq<Seq<char>>) -> RequestView {
    match arg_at(args, 1) {
        None => RequestView::Say(USAGE@, 0),
        Some(c) => if c == "ls"@ {
            match arg_at(args, 2) {
                Some(a) => if is_index_date(a) {
                    RequestView::Ls(Some(a))
                } else {
                    RequestView::Say(
                        "日期非法: "@ + a + "(应为 YYYY/YYYYMM/YYYYMMDD,月01-12 日01-31)"@,
                        2,
                    )
                },
                None => RequestView::Ls(None),
            }
        } else if c == "read"@ {
            let raw = arg_or_empty(args, 2);
            if is_read_date(normalized(raw)) {
                RequestView::Read(normalized(raw))
            } else {
                RequestView::Say(
                    "日期非法: "@ + raw + "(应为 YYYY-MM-DD/YYYY-MM/YYYY,月01-12 日01-31)"@,
                    2,
                )
            }
        } else if c == "history"@ {
            RequestView::History(arg_or_empty(args, 2), range_given(args))
        } else if c == "search"@ {
            RequestView::Search(arg_or_empty(args, 2), args.contains("--raw"@))
        } else if c == "pack"@ {
            RequestView::Pack
        } else if c == "--help"@ || c == "-h"@ {
            RequestView::Say(USAGE@, 0)
        } else {
            RequestView::Say("未知命令: "@ + c + "\n\n"@ + USAGE@, 2)
        },
    }
}

/// What the arguments ask for.
pub fn dispatch(args: &Vec<String>) -> (r: Request)
    ensures
        r@ == request(texts(args@)),
{
    let ghost all = texts(args@);
    let n: usize = args.len();
    assert(all.len() == n);
    if n < 2 {
        return Request::Say(usage(), 0);
    }
    assert(all[1] == args@[1]@);
    let c = args[1].as_str();
    proof {
        reveal_strlit("");
        assert(""@ =~= Seq::<char>::empty());
        if n > 2 {
            assert(all[2] == args@[2]@);
        }
    }
    let second = if n > 2 {
        args[2].as_str()
    } else {
        ""
    };
    if str_eq(c, "ls") {
        if n <= 2 {
            return Request::Ls(None);
        }
        if valid_ls_arg(second) {
            return Request::Ls(Some(second.to_owned()));
        }
        let mut s = "日期非法: ".to_owned();
        s.push_str(second);
        s.push_str("(应为 YYYY/YYYYMM/YYYYMMDD,月01-12 日01-31)");
        return Request::Say(s, 2);
    }
    if str_eq(c, "read") {
        let date = normalize_date(second);
        if valid_read_arg(date.as_str()) {
            return Request::Read(date);
        }
        let mut s = "日期非法: ".to_owned();
        s.push_str(second);
        s.push_str("(应为 YYYY-MM-DD/YYYY-MM/YYYY,月01-12 日01-31)");
        return Request::Say(s, 2);
    }
    if str_eq(c, "history") {
        return Request::History(second.to_owned(), parse_seq_flag(args));
    }
    if str_eq(c, "search") {
        return Request::Search(second.to_owned(), list_has(args, "--raw"));
    }
    if str_eq(c, "pack") {
        return Request::Pack;
    }
    if str_eq(c, "--help") || str_eq(c, "-h") {
        return Request::Say(usage(), 0);
    }
    let mut s = "未知命令: ".to_owned();
    s.push_str(c);
    s.push_str("\n\n");
    s.push_str(USAGE);
    Request::Say(s, 2)
}

// ---------------------------------------------------------------------------
// What holds of dates and ranges
// ---------------------------------------------------------------------------

proof fn lemma_filter_digits(s: Seq<char>)
    requires
        all_digits(s),
    ensures
        digits(s) == s,
    decreases s.len(),
{
    reveal(Seq::filter);
    if s.len() > 0 {
        let t = s.drop_last();
        assert forall|i: int| 0 <= i < t.len() implies is_digit(t[i]) by {
            assert(t[i] == s[i]);
        }
        lemma_filter_digits(t);
        assert(is_digit(s[s.len() - 1]));
        assert(t.push(s.last()) =~= s);
    } else {
        assert(digits(s) =~= s);
    }
}

proof fn lemma_digits_add(a: Seq<char>, b: Seq<char>)
    ensures
        digits(a + b) == digits(a) + digits(b),
    decreases b.len(),
{
    reveal(Seq::filter);
    if b.len() == 0 {
        assert(a + b =~= a);
        assert(digits(a) + digits(b) =~= digits(a));
    } else {
        assert((a + b).drop_last() =~= a + b.drop_last());
        lemma_digits_add(a, b.drop_last());
        assert(digits(a + b) =~= digits(a) + digits(b));
    }
}

proof fn lemma_digits_are(s: Seq<char>)
    ensures
        all_digits(digits(s)),
{
    let p = |c: char| is_digit(c);
    assert forall|i: int| 0 <= i < digits(s).len() implies is_digit(digits(s)[i]) by {
        s.lemma_filter_pred(p, i);
    }
}

proof fn lemma_dash_has_no_digits()
    ensures
        "-"@ == seq!['-'],
        digits("-"@) == Seq::<char>::empty(),
{
    reveal_strlit("-");
    reveal(Seq::filter);
    assert("-"@ =~= seq!['-']);
    let e = "-"@.drop_last();
    assert(e =~= Seq::<char>::empty());
    assert(digits(e) =~= Seq::<char>::empty());
    assert(digits("-"@) =~= Seq::<char>::empty());
}

/// Putting dashes into a date keeps its digits.
pub proof fn lemma_normalized_digits(arg: Seq<char>)
    ensures
        digits(normalized(arg)) == digits(arg),
{
    let d = digits(arg);
    lemma_digits_are(arg);
    lemma_dash_has_no_digits();
    if d.len() == 8 || d.len() == 6 {
        let y = d.take(4);
        let m = d.subrange(4, 6);
        lemma_filter_digits(y);
        lemma_filter_digits(m);
        lemma_digits_add(y, "-"@);
        lemma_digits_add(y + "-"@, m);
        if d.len() == 8 {
            let x = d.subrange(6, 8);
            lemma_filter_digits(x);
            lemma_digits_add(y + "-"@ + m, "-"@);
            lemma_digits_add(y + "-"@ + m + "-"@, x);
            assert(digits(normalized(arg)) =~= d);
        } else {
            assert(digits(normalized(arg)) =~= d);
        }
    }
}

/// A date that has its dashes keeps them.
pub proof fn lemma_normalized_once(arg: Seq<char>)
    ensures
        normalized(normalized(arg)) == normalized(arg),
{
    lemma_normalized_digits(arg);
}

proof fn lemma_no_dash(s: Seq<char>)
    requires
        all_digits(s),
    ensures
        char_index(s, '-') is None,
{
    lemma_char_index(s, '-');
    if let Some(i) = char_index(s, '-') {
        assert(is_digit(s[i]));
    }
}

proof fn lemma_first_dash(a: Seq<char>, b: Seq<char>)
    requires
        all_digits(a),
    ensures
        split(a + seq!['-'] + b, '-') == seq![a] + split(b, '-'),
{
    let s = a + seq!['-'] + b;
    let n = a.len() as int;
    lemma_char_index(s, '-');
    assert(s[n] == '-');
    let i = char_index(s, '-')->0;
    if i < n {
        assert(s[i] == a[i]);
        assert(is_digit(a[i]));
    }
    assert(i == n);
    assert(s.take(n) =~= a);
    assert(s.skip(n + 1) =~= b);
}

proof fn lemma_digit_width(s: Seq<char>)
    requires
        all_digits(s),
    ensures
        byte_len(s) == s.len(),
    decreases s.len(),
{
    if s.len() > 0 {
        let t = s.drop_last();
        assert forall|i: int| 0 <= i < t.len() implies is_digit(t[i]) by {
            assert(t[i] == s[i]);
        }
        assert(is_digit(s[s.len() - 1]));
        lemma_digit_width(t);
    }
}

/// A month or a day that has an index can be read, and the other way round, with
/// dashes or without.
pub proof fn lemma_same_dates(arg: Seq<char>)
    requires
        digits(arg).len() == 6 || digits(arg).len() == 8,
    ensures
        is_index_date(arg) == is_read_date(normalized(arg)),
{
    let d = digits(arg);
    lemma_digits_are(arg);
    lemma_dash_has_no_digits();
    let y = d.take(4);
    let m = d.subrange(4, 6);
    lemma_digit_width(y);
    lemma_digit_width(m);
    if d.len() == 6 {
        lemma_no_dash(m);
        lemma_first_dash(y, m);
        let parts = split(normalized(arg), '-');
        assert(parts =~= seq![y, m]);
    } else {
        let x = d.subrange(6, 8);
        lemma_digit_width(x);
        lemma_no_dash(x);
        lemma_first_dash(m, x);
        let rest = m + seq!['-'] + x;
        assert(y + "-"@ + m + "-"@ + x =~= y + seq!['-'] + rest);
        lemma_first_dash(y, rest);
        let parts = split(normalized(arg), '-');
        assert(parts =~= seq![y, m, x]);
    }
}

/// A range that is written with two dots is read as the numbers it was written
/// from.
pub proof fn lemma_range_reads_back(a: u64, b: u64)
    ensures
        range_of(dec(a as nat) + ".."@ + dec(b as nat)) == Some((a, b)),
{
    let x = dec(a as nat);
    let y = dec(b as nat);
    let v = x + ".."@ + y;
    crate::decimal::lemma_dec_reads_back(a as nat);
    crate::decimal::lemma_write_read(a);
    crate::decimal::lemma_write_read(b);
    reveal_strlit("..");
    let n = x.len() as int;
    lemma_find_least(v, ".."@, 0);
    assert(v.subrange(n, n + 2) =~= ".."@);
    assert(crate::text::occurs_at(v, ".."@, n));
    let i = find(v, ".."@)->0;
    if i < n {
        assert(v.subrange(i, i + 2)[0] == v[i]);
        assert(v[i] == x[i]);
        assert(is_digit(x[i]));
    }
    assert(i == n);
    assert(v.take(n) =~= x);
    assert(v.skip(n + 2) =~= y);
}

// ---------------------------------------------------------------------------
// Summing up
// ---------------------------------------------------------------------------

/// The flags for summing up.
#[derive(Debug, Clone, Copy, PartialEq, Eq, Structural)]
pub struct DreamFlags {
    pub once: bool,
    pub mechanical: bool,
    pub dry_run: bool,
    pub force: bool,
}

/// The flags in arguments.
pub open spec fn flags_in(args: Seq<Seq<char>>) -> DreamFlags {
    DreamFlags {
        once: args.contains("--once"@),
        mechanical: args.contains("--mechanical"@),
        dry_run: args.contains("--dry-run"@),
        force: args.contains("--force"@),
    }
}

/// The flags in arguments.
pub fn parse_dream_flags(args: &Vec<String>) -> (r: DreamFlags)
    ensures
        r == flags_in(texts(args@)),
{
    DreamFlags {
        once: list_has(args, "--once"),
        mechanical: list_has(args, "--mechanical"),
        dry_run: list_has(args, "--dry-run"),
        force: list_has(args, "--force"),
    }
}

/// The first argument of a list that is no flag.
pub open spec fn first_plain(args: Seq<Seq<char>>) -> Option<Seq<char>>
    decreases args.len(),
{
    if args.len() == 0 {
        None
    } else if starts_with(args[0], "--"@) {
        first_plain(args.skip(1))
    } else {
        Some(args[0])
    }
}

fn plain_after(args: &Vec<String>, from: usize) -> (r: Option<String>)
    requires
        from <= args@.len(),
    ensures
        opt_text(r) == first_plain(texts(args@).skip(from as int)),
{
    let ghost all = texts(args@);
    let mut i: usize = from;
    while i < args.len()
        invariant
            all == texts(args@),
            from <= i <= args@.len(),
            first_plain(all.skip(from as int)) == first_plain(all.skip(i as int)),
        decreases args@.len() - i,
    {
        let ghost rest = all.skip(i as int);
        proof {
            assert(rest[0] == args@[i as int]@);
            assert(rest.skip(1) =~= all.skip(i + 1));
        }
        if !begins(args[i].as_str(), "--") {
            return Some(args[i].clone());
        }
        i = i + 1;
    }
    None
}

/// What is to be summed up: all that is new, a day, a month, the months that have
/// not been, a year, the years that have not been; or why nothing is.
#[derive(Debug)]
pub enum DreamPlan {
    ToIdle,
    Day(String),
    Month(i32, u32),
    MissingMonths,
    Year(i32),
    MissingYears,
    Refused(String),
}

/// What a plan holds.
pub enum PlanView {
    ToIdle,
    Day(Seq<char>),
    Month(int, nat),
    MissingMonths,
    Year(int),
    MissingYears,
    Refused(Seq<char>),
}

impl View for DreamPlan {
    type V = PlanView;

    open spec fn view(&self) -> PlanView {
        match *self {
            DreamPlan::ToIdle => PlanView::ToIdle,
            DreamPlan::Day(d) => PlanView::Day(d@),
            DreamPlan::Month(y, m) => PlanView::Month(y as int, m as nat),
            DreamPlan::MissingMonths => PlanView::MissingMonths,
            DreamPlan::Year(y) => PlanView::Year(y as int),
            DreamPlan::MissingYears => PlanView::MissingYears,
            DreamPlan::Refused(e) => PlanView::Refused(e@),
        }
    }
}

/// Why nothing is summed up again without being named.
pub const FORCE_NEEDS_DATE: &'static str = "[mem dream] --force 必须指定 date/ym/year（如 day --force 2026-08-02 / month --force 2026-08 / year --force 2026）";

/// What arguments ask to sum up.
pub open spec fn plan_for(args: Seq<Seq<char>>) -> PlanView {
    let sub = arg_or_empty(args, 2);
    let pos = if args.len() > 3 {
        first_plain(args.skip(3))
    } else {
        None
    };
    if flags_in(args).force && pos is None {
        PlanView::Refused(FORCE_NEEDS_DATE@)
    } else if sub == "day"@ {
        match pos {
            Some(d) => PlanView::Day(d),
            None => PlanView::ToIdle,
        }
    } else if sub == "month"@ {
        match pos {
            Some(s) => PlanView::Month(year_month_of(s).0, year_month_of(s).1),
            None => PlanView::MissingMonths,
        }
    } else if sub == "year"@ {
        match pos {
            Some(s) => match parse_signed(s, i32::MIN as int, i32::MAX as int) {
                Some(y) => PlanView::Year(y),
                None => PlanView::Refused("[mem dream] year 非法: "@ + s),
            },
            None => PlanView::MissingYears,
        }
    } else {
        PlanView::ToIdle
    }
}

/// What arguments ask to sum up.
pub fn plan_dream(args: &Vec<String>) -> (r: DreamPlan)
    ensures
        r@ == plan_for(texts(args@)),
{
    let ghost all = texts(args@);
    let n: usize = args.len();
    proof {
        assert(all.len() == n);
        reveal_strlit("");
        assert(""@ =~= Seq::<char>::empty());
        if n > 2 {
            assert(all[2] == args@[2]@);
        }
    }
    let sub = if n > 2 {
        args[2].as_str()
    } else {
        ""
    };
    let pos = if n > 3 {
        plain_after(args, 3)
    } else {
        None
    };
    let flags = parse_dream_flags(args);
    if flags.force && pos.is_none() {
        return DreamPlan::Refused(FORCE_NEEDS_DATE.to_owned());
    }
    if str_eq(sub, "day") {
        match pos {
            Some(d) => DreamPlan::Day(d),
            None => DreamPlan::ToIdle,
        }
    } else if str_eq(sub, "month") {
        match pos {
            Some(s) => {
                let (y, m) = parse_ym_arg(s.as_str());
                DreamPlan::Month(y, m)
            },
            None => DreamPlan::MissingMonths,
        }
    } else if str_eq(sub, "year") {
        match pos {
            Some(s) => {
                let v = to_chars(s.as_str());
                match read_i32(v.as_slice()) {
                    Some(y) => DreamPlan::Year(y),
                    None => {
                        let mut e = "[mem dream] year 非法: ".to_owned();
                        e.push_str(s.as_str());
                        DreamPlan::Refused(e)
                    },
                }
            },
            None => DreamPlan::MissingYears,
        }
    } else {
        DreamPlan::ToIdle
    }
}

/// The year and the month that an argument gives.
pub fn parse_ym_arg(arg: &str) -> (r: (i32, u32))
    ensures
        (r.0 as int, r.1 as nat) == year_month_of(arg@),
{
    year_month(arg)
}

/// The year and the month at a time, in milliseconds since 1970 and with an offset
/// in seconds.
pub fn current_ym(now: u64, offset_secs: i64) -> (r: (i32, u32))
    requires
        offset_fits(now, offset_secs),
    ensures
        (r.0 as int, r.1 as nat) == year_month_of(date_of(shifted(now, offset_secs))),
{
    year_month(date_from_ts_local(now, offset_secs).as_str())
}

/// The settings for summing up.
#[derive(Debug)]
pub struct DreamCfg {
    pub api_key: Option<String>,
    pub model: String,
    pub region: String,
    pub max_rounds: u32,
    pub batch_max_events: usize,
}

/// The directory whose settings are used: that of the memory when it has some,
/// else the one above it when that has.
pub fn settings_dir(cache: &str, cache_has: bool, parent: Option<&str>, parent_has: bool) -> (r:
    String)
    ensures
        r@ == (match parent {
            Some(p) => if !cache_has && parent_has {
                p@
            } else {
                cache@
            },
            None => cache@,
        }),
{
    if !cache_has && parent_has {
        if let Some(p) = parent {
            return p.to_owned();
        }
    }
    cache.to_owned()
}

/// The settings for summing up.
pub fn dream_settings(cfg: &Config) -> (r: DreamCfg)
    ensures
        opt_text(r.api_key) == (if cfg.api_key@.len() == 0 {
            None
        } else {
            Some(cfg.api_key@)
        }),
        r.model@ == cfg.llm_model@,
        r.region@ == cfg.minimax_region@,
        r.max_rounds == cfg.dream_merge_max_rounds as u32,
        r.batch_max_events == cfg.dream_batch_max_events as usize,
{
    DreamCfg {
        api_key: if cfg.api_key.as_str().unicode_len() == 0 {
            None
        } else {
            Some(cfg.api_key.clone())
        },
        model: cfg.llm_model.clone(),
        region: cfg.minimax_region.clone(),
        max_rounds: cfg.dream_merge_max_rounds as u32,
        batch_max_events: cfg.dream_batch_max_events as usize,
    }
}

// ---------------------------------------------------------------------------
// What has not been summed up
// ---------------------------------------------------------------------------

/// Something in a directory is named as records of a period are.
pub open spec fn has_records(v: Seq<EntryView>, dir: Seq<char>, len: nat) -> bool {
    exists|i: int|
        0 <= i < v.len() && (#[trigger] v[i]).dir == dir && name_extension(v[i].name) == Some(
            "jsonl"@,
        ) && byte_len(name_stem(v[i].name)) == len
}

/// Something with a name is in a directory.
pub open spec fn is_there(v: Seq<EntryView>, dir: Seq<char>, name: Seq<char>) -> bool {
    exists|i: int| 0 <= i < v.len() && (#[trigger] v[i]).dir == dir && v[i].name == name
}

fn some_records(store: &Store, dir: &str, len: usize) -> (r: bool)
    ensures
        r == has_records(store@.entries, dir@, len as nat),
{
    let ghost all = store@.entries;
    let mut i: usize = 0;
    while i < store.entries.len()
        invariant
            all == entry_views(store.entries@),
            i <= store.entries@.len(),
            forall|k: int|
                0 <= k < i ==> !((#[trigger] all[k]).dir == dir@ && name_extension(all[k].name)
                    == Some("jsonl"@) && byte_len(name_stem(all[k].name)) == len),
        decreases store.entries@.len() - i,
    {
        let e = &store.entries[i];
        assert(all[i as int] == e@);
        if str_eq(e.dir.as_str(), dir) && name_has_extension(e.name.as_str(), "jsonl")
            && stem_len(e.name.as_str()) == len {
            return true;
        }
        i = i + 1;
    }
    false
}

fn found(store: &Store, dir: &str, name: &str) -> (r: bool)
    ensures
        r == is_there(store@.entries, dir@, name@),
{
    let ghost all = store@.entries;
    let mut i: usize = 0;
    while i < store.entries.len()
        invariant
            all == entry_views(store.entries@),
            i <= store.entries@.len(),
            forall|k: int|
                0 <= k < i ==> !((#[trigger] all[k]).dir == dir@ && all[k].name == name@),
        decreases store.entries@.len() - i,
    {
        let e = &store.entries[i];
        assert(all[i as int] == e@);
        if str_eq(e.dir.as_str(), dir) && str_eq(e.name.as_str(), name) {
            return true;
        }
        i = i + 1;
    }
    false
}

/// The year that a directory's name gives, 0 when it gives none.
pub open spec fn year_named(name: Seq<char>) -> int {
    match parse_signed(name, i32::MIN as int, i32::MAX as int) {
        Some(y) => y,
        None => 0,
    }
}

/// The month that a directory's name gives, 0 when it gives none.
pub open spec fn month_named(name: Seq<char>) -> nat {
    match parse_unsigned(name, u32::MAX as nat) {
        Some(m) => m,
        None => 0,
    }
}

fn read_year_name(name: &str) -> (r: i32)
    ensures
        r as int == year_named(name@),
{
    let v = to_chars(name);
    match read_i32(v.as_slice()) {
        Some(y) => y,
        None => 0,
    }
}

fn read_month_name(name: &str) -> (r: u32)
    ensures
        r as nat == month_named(name@),
{
    let v = to_chars(name);
    match read_u32(v.as_slice()) {
        Some(m) => m,
        None => 0,
    }
}

/// A month with records of days and none of its own.
pub open spec fn month_missing(v: Seq<EntryView>, year_name: Seq<char>, name: Seq<char>) -> bool {
    let dir = sub_dir(sub_dir("memory"@, year_name), name);
    let ym = month_name(dec_int(year_named(year_name)), padded(month_named(name), 2));
    &&& month_named(name) != 0
    &&& has_records(v, dir, 10)
    &&& !is_there(v, dir, ym + ".jsonl"@)
}

/// The months among names that are missing.
pub open spec fn months_missing(
    v: Seq<EntryView>,
    year_name: Seq<char>,
    names: Seq<Seq<char>>,
) -> Seq<(int, nat)>
    decreases names.len(),
{
    if names.len() == 0 {
        Seq::empty()
    } else {
        let head = months_missing(v, year_name, names.drop_last());
        if month_missing(v, year_name, names.last()) {
            head.push((year_named(year_name), month_named(names.last())))
        } else {
            head
        }
    }
}

/// The months of the years among names that are missing.
pub open spec fn all_months_missing(v: Seq<EntryView>, names: Seq<Seq<char>>) -> Seq<(int, nat)>
    decreases names.len(),
{
    if names.len() == 0 {
        Seq::empty()
    } else {
        let head = all_months_missing(v, names.drop_last());
        let y = names.last();
        if year_named(y) == 0 {
            head
        } else {
            head + months_missing(v, y, sorted(dirs_in(v, sub_dir("memory"@, y))))
        }
    }
}

/// Months as numbers.
pub open spec fn month_pairs(v: Seq<(i32, u32)>) -> Seq<(int, nat)> {
    v.map_values(|p: (i32, u32)| (p.0 as int, p.1 as nat))
}

fn missing_in_year(store: &Store, year_name: &str, names: &Vec<String>) -> (r: Vec<(i32, u32)>)
    ensures
        month_pairs(r@) == months_missing(store@.entries, year_name@, texts(names@)),
{
    let ghost all = texts(names@);
    let ghost v = store@.entries;
    let year: i32 = read_year_name(year_name);
    let ydir = below_dir("memory", year_name);
    let ys = write_i64(year as i64);
    let mut out: Vec<(i32, u32)> = Vec::new();
    let mut i: usize = 0;
    proof {
        assert(all.take(0) =~= Seq::empty());
        assert(month_pairs(out@) =~= Seq::empty());
    }
    while i < names.len()
        invariant
            all == texts(names@),
            v == store@.entries,
            year as int == year_named(year_name@),
            ydir@ == sub_dir("memory"@, year_name@),
            ys@ == dec_int(year as int),
            i <= names@.len(),
            month_pairs(out@) == months_missing(v, year_name@, all.take(i as int)),
        decreases names@.len() - i,
    {
        proof {
            let x = all.take(i + 1);
            assert(x.drop_last() =~= all.take(i as int));
            assert(x.last() == names@[i as int]@);
        }
        let month: u32 = read_month_name(names[i].as_str());
        if month != 0 {
            let dir = below_dir(ydir.as_str(), names[i].as_str());
            let mut file = write_month_name(
                ys.as_str(),
                write_padded(month as u64, 2).as_str(),
            );
            file.push_str(".jsonl");
            if some_records(store, dir.as_str(), 10) && !found(
                store,
                dir.as_str(),
                file.as_str(),
            ) {
                let ghost before = month_pairs(out@);
                out.push((year, month));
                assert(month_pairs(out@) =~= before.push((year as int, month as nat)));
            }
        }
        i = i + 1;
    }
    assert(all.take(i as int) =~= all);
    out
}

/// The months that have records of days and none of their own, in order.
pub fn missing_months(store: &Store) -> (r: Vec<(i32, u32)>)
    ensures
        month_pairs(r@) == all_months_missing(
            store@.entries,
            sorted(dirs_in(store@.entries, "memory"@)),
        ),
{
    let names = store.dirs("memory");
    let ghost all = texts(names@);
    let ghost v = store@.entries;
    let mut out: Vec<(i32, u32)> = Vec::new();
    let mut i: usize = 0;
    proof {
        assert(all.take(0) =~= Seq::empty());
        assert(month_pairs(out@) =~= Seq::empty());
    }
    while i < names.len()
        invariant
            all == texts(names@),
            v == store@.entries,
            i <= names@.len(),
            month_pairs(out@) == all_months_missing(v, all.take(i as int)),
        decreases names@.len() - i,
    {
        proof {
            let x = all.take(i + 1);
            assert(x.drop_last() =~= all.take(i as int));
            assert(x.last() == names@[i as int]@);
        }
        let name = names[i].as_str();
        if read_year_name(name) != 0 {
            let months = store.dirs(below_dir("memory", name).as_str());
            let ghost before = month_pairs(out@);
            let mut more = missing_in_year(store, name, &months);
            let ghost added = month_pairs(more@);
            out.append(&mut more);
            assert(month_pairs(out@) =~= before + added);
        }
        i = i + 1;
    }
    assert(all.take(i as int) =~= all);
    out
}

/// Some month among names has records of its own.
pub open spec fn has_month(v: Seq<EntryView>, dir: Seq<char>, names: Seq<Seq<char>>) -> bool {
    exists|i: int| 0 <= i < names.len() && has_records(v, sub_dir(dir, #[trigger] names[i]), 7)
}

/// A year with records of months and none of its own.
pub open spec fn year_missing(v: Seq<EntryView>, name: Seq<char>) -> bool {
    let dir = sub_dir("memory"@, name);
    &&& year_named(name) != 0
    &&& has_month(v, dir, sorted(dirs_in(v, dir)))
    &&& !is_there(v, dir, dec_int(year_named(name)) + ".jsonl"@)
}

/// The years among names that are missing.
pub open spec fn years_missing(v: Seq<EntryView>, names: Seq<Seq<char>>) -> Seq<int>
    decreases names.len(),
{
    if names.len() == 0 {
        Seq::empty()
    } else {
        let head = years_missing(v, names.drop_last());
        if year_missing(v, names.last()) {
            head.push(year_named(names.last()))
        } else {
            head
        }
    }
}

fn some_month(store: &Store, dir: &str, names: &Vec<String>) -> (r: bool)
    ensures
        r == has_month(store@.entries, dir@, texts(names@)),
{
    let ghost all = texts(names@);
    let mut i: usize = 0;
    while i < names.len()
        invariant
            all == texts(names@),
            i <= names@.len(),
            forall|k: int|
                0 <= k < i ==> !has_records(
                    store@.entries,
                    sub_dir(dir@, #[trigger] all[k]),
                    7,
                ),
        decreases names@.len() - i,
    {
        assert(all[i as int] == names@[i as int]@);
        if some_records(store, below_dir(dir, names[i].as_str()).as_str(), 7) {
            return true;
        }
        i = i + 1;
    }
    false
}

/// The years that have records of months and none of their own, in order.
pub fn missing_years(store: &Store) -> (r: Vec<i32>)
    ensures
        r@.map_values(|y: i32| y as int) == years_missing(
            store@.entries,
            sorted(dirs_in(store@.entries, "memory"@)),
        ),
{
    let names = store.dirs("memory");
    let ghost all = texts(names@);
    let ghost v = store@.entries;
    let ghost f = |y: i32| y as int;
    let mut out: Vec<i32> = Vec::new();
    let mut i: usize = 0;
    proof {
        assert(all.take(0) =~= Seq::empty());
        assert(out@.map_values(f) =~= Seq::empty());
    }
    while i < names.len()
        invariant
            all == texts(names@),
            v == store@.entries,
            f == (|y: i32| y as int),
            i <= names@.len(),
            out@.map_values(f) == years_missing(v, all.take(i as int)),
        decreases names@.len() - i,
    {
        proof {
            let x = all.take(i + 1);
            assert(x.drop_last() =~= all.take(i as int));
            assert(x.last() == names@[i as int]@);
        }
        let name = names[i].as_str();
        let year: i32 = read_year_name(name);
        if year != 0 {
            let dir = below_dir("memory", name);
            let months = store.dirs(dir.as_str());
            let mut file = write_i64(year as i64);
            file.push_str(".jsonl");
            if some_month(store, dir.as_str(), &months) && !found(
                store,
                dir.as_str(),
                file.as_str(),
            ) {
                let ghost before = out@.map_values(f);
                out.push(year);
                assert(out@.map_values(f) =~= before.push(year as int));
            }
        }
        i = i + 1;
    }
    assert(all.take(i as int) =~= all);
    out
}

/// A month that has records of its own is not summed up once more.
pub proof fn lemma_month_once(v: Seq<EntryView>, year_name: Seq<char>, name: Seq<char>)
    requires
        is_there(
            v,
            sub_dir(sub_dir("memory"@, year_name), name),
            month_name(dec_int(year_named(year_name)), padded(month_named(name), 2)) + ".jsonl"@,
        ),
    ensures
        !month_missing(v, year_name, name),
{
}

} // verus!
