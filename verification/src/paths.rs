//! Where the game keeps its files: under `.xlyph` in the player's home
//! directory. The home directory is handed in as the value of `HOME`
//! (`None` when unset, which means the current directory).

use vstd::prelude::*;

use crate::text::{chars_of, string_from_chars};

verus! {

pub open spec fn opt_text_view(o: Option<&str>) -> Option<Seq<char>> {
    match o {
        Some(s) => Some(s@),
        None => None,
    }
}

/// The home directory: the value of `HOME`, or `.` when it is unset.
pub open spec fn home_dir_of(home: Option<Seq<char>>) -> Seq<char> {
    match home {
        Some(h) => h,
        None => seq!['.'],
    }
}

/// A relative component appended to a path as `PathBuf::push` does it: a
/// `/` in between unless the path is empty or already ends with one.
pub open spec fn joined_path(base: Seq<char>, comp: Seq<char>) -> Seq<char> {
    if base.len() == 0 || base.last() == '/' {
        base + comp
    } else {
        base + seq!['/'] + comp
    }
}

pub open spec fn xlyph_dir_of(home: Option<Seq<char>>) -> Seq<char> {
    joined_path(home_dir_of(home), ".xlyph"@)
}

pub open spec fn saves_dir_of(home: Option<Seq<char>>) -> Seq<char> {
    joined_path(xlyph_dir_of(home), "saves"@)
}

/// The decimal digits of `n`, most significant first.
pub open spec fn decimal(n: nat) -> Seq<char>
    decreases n,
{
    if n < 10 {
        seq![(48 + n) as char]
    } else {
        decimal(n / 10).push((48 + n % 10) as char)
    }
}

pub open spec fn save_path_of(home: Option<Seq<char>>, slot: nat) -> Seq<char> {
    joined_path(saves_dir_of(home), "slot-"@ + decimal(slot) + ".json"@)
}

pub open spec fn temp_edit_path_of(home: Option<Seq<char>>) -> Seq<char> {
    joined_path(joined_path(xlyph_dir_of(home), "tmp"@), "console-input.glyph"@)
}

pub open spec fn log_path_of(home: Option<Seq<char>>) -> Seq<char> {
    joined_path(joined_path(xlyph_dir_of(home), "logs"@), "xlyph.log"@)
}

pub open spec fn playbook_dir_of(home: Option<Seq<char>>) -> Seq<char> {
    joined_path(joined_path(xlyph_dir_of(home), "playbooks"@), "current"@)
}

/// Appends a relative component to a path.
pub fn join_path(base: &str, comp: &str) -> (r: String)
    ensures
        r@ == joined_path(base@, comp@),
{
    let mut cs = chars_of(base);
    let n = cs.len();
    if n > 0 && cs[n - 1] != '/' {
        cs.push('/');
    }
    let tail = chars_of(comp);
    let ghost head = cs@;
    let mut i: usize = 0;
    while i < tail.len()
        invariant
            i <= tail@.len(),
            cs@ == head + tail@.subrange(0, i as int),
        decreases tail.len() - i,
    {
        cs.push(tail[i]);
        i = i + 1;
        assert(cs@ =~= head + tail@.subrange(0, i as int));
    }
    assert(tail@.subrange(0, tail@.len() as int) =~= tail@);
    string_from_chars(cs.as_slice())
}

/// The decimal form of `n`.
pub fn decimal_string(n: u32) -> (r: String)
    ensures
        r@ == decimal(n as nat),
{
    let mut rev: Vec<char> = Vec::new();
    let mut m = n;
    let ghost mut done: nat = 0;
    loop
        invariant_except_break
            rev@.len() > 0 ==> m > 0,
        invariant
            m <= n,
            decimal(n as nat) == (if m > 0 || rev@.len() == 0 {
                decimal(m as nat)
            } else {
                seq![]
            }) + rev@.reverse(),
            rev@.len() == 0 ==> m == n,
        ensures
            m == 0,
            rev@.len() > 0,
            decimal(n as nat) == rev@.reverse(),
        decreases m,
    {
        let d = m % 10;
        let c = char_of_digit(d);
        let ghost m0 = m as nat;
        let ghost old_rev = rev@;
        rev.push(c);
        m = m / 10;
        proof {
            assert(rev@.reverse() =~= seq![c] + old_rev.reverse());
            if m0 >= 10 {
                assert(decimal(m0) == decimal(m as nat).push(c));
                assert(decimal(n as nat) =~= decimal(m as nat) + rev@.reverse());
            } else {
                assert(decimal(m0) == seq![c]);
                assert(decimal(n as nat) =~= rev@.reverse());
            }
        }
        if m == 0 {
            break;
        }
    }
    let mut out: Vec<char> = Vec::new();
    let mut k = rev.len();
    while k > 0
        invariant
            k <= rev@.len(),
            out@ == rev@.subrange(k as int, rev@.len() as int).reverse(),
        decreases k,
    {
        k = k - 1;
        out.push(rev[k]);
        assert(out@ =~= rev@.subrange(k as int, rev@.len() as int).reverse());
    }
    assert(rev@.subrange(0, rev@.len() as int) =~= rev@);
    assert(out@ =~= decimal(n as nat));
    string_from_chars(out.as_slice())
}

fn char_of_digit(d: u32) -> (c: char)
    requires
        d < 10,
    ensures
        c == (48 + d) as char,
{
    if d == 0 {
        '0'
    } else if d == 1 {
        '1'
    } else if d == 2 {
        '2'
    } else if d == 3 {
        '3'
    } else if d == 4 {
        '4'
    } else if d == 5 {
        '5'
    } else if d == 6 {
        '6'
    } else if d == 7 {
        '7'
    } else if d == 8 {
        '8'
    } else {
        '9'
    }
}

/// The home directory: `home` (the value of `HOME`), or `.` without one.
pub fn home_dir(home: Option<&str>) -> (r: String)
    ensures
        r@ == home_dir_of(opt_text_view(home)),
{
    match home {
        Some(h) => string_from_chars(chars_of(h).as_slice()),
        None => {
            let dot: Vec<char> = vec!['.'];
            string_from_chars(dot.as_slice())
        },
    }
}

/// `~/.xlyph`: the game's directory.
pub fn xlyph_dir(home: Option<&str>) -> (r: String)
    ensures
        r@ == xlyph_dir_of(opt_text_view(home)),
{
    let h = home_dir(home);
    join_path(h.as_str(), ".xlyph")
}

/// `~/.xlyph/saves`.
pub fn saves_dir(home: Option<&str>) -> (r: String)
    ensures
        r@ == saves_dir_of(opt_text_view(home)),
{
    let d = xlyph_dir(home);
    join_path(d.as_str(), "saves")
}

/// `~/.xlyph/saves/slot-N.json`: the save file of a slot.
pub fn save_path(home: Option<&str>, slot: u32) -> (r: String)
    ensures
        r@ == save_path_of(opt_text_view(home), slot as nat),
{
    let d = saves_dir(home);
    let digits = decimal_string(slot);
    let mut name = chars_of("slot-");
    let ds = chars_of(digits.as_str());
    let ext = chars_of(".json");
    let ghost start = name@;
    let mut i: usize = 0;
    while i < ds.len()
        invariant
            i <= ds@.len(),
            name@ == start + ds@.subrange(0, i as int),
        decreases ds.len() - i,
    {
        name.push(ds[i]);
        i = i + 1;
        assert(name@ =~= start + ds@.subrange(0, i as int));
    }
    assert(ds@.subrange(0, ds@.len() as int) =~= ds@);
    let ghost mid = name@;
    let mut j: usize = 0;
    while j < ext.len()
        invariant
            j <= ext@.len(),
            name@ == mid + ext@.subrange(0, j as int),
        decreases ext.len() - j,
    {
        name.push(ext[j]);
        j = j + 1;
        assert(name@ =~= mid + ext@.subrange(0, j as int));
    }
    assert(ext@.subrange(0, ext@.len() as int) =~= ext@);
    let file = string_from_chars(name.as_slice());
    join_path(d.as_str(), file.as_str())
}

/// `~/.xlyph/tmp/console-input.glyph`: where the console's text goes for an
/// external editor.
pub fn temp_edit_path(home: Option<&str>) -> (r: String)
    ensures
        r@ == temp_edit_path_of(opt_text_view(home)),
{
    let d = xlyph_dir(home);
    let t = join_path(d.as_str(), "tmp");
    join_path(t.as_str(), "console-input.glyph")
}

/// `~/.xlyph/logs/xlyph.log`: the diagnostics log.
pub fn log_path(home: Option<&str>) -> (r: String)
    ensures
        r@ == log_path_of(opt_text_view(home)),
{
    let d = xlyph_dir(home);
    let l = join_path(d.as_str(), "logs");
    join_path(l.as_str(), "xlyph.log")
}

/// `~/.xlyph/playbooks/current`: the playbook loaded on start.
pub fn current_playbook_dir(home: Option<&str>) -> (r: String)
    ensures
        r@ == playbook_dir_of(opt_text_view(home)),
{
    let d = xlyph_dir(home);
    let p = join_path(d.as_str(), "playbooks");
    join_path(p.as_str(), "current")
}

/// The playbook's entry file, `init.glyph` in the current playbook.
pub fn playbook_init_path(home: Option<&str>) -> (r: String)
    ensures
        r@ == joined_path(playbook_dir_of(opt_text_view(home)), "init.glyph"@),
{
    let d = current_playbook_dir(home);
    join_path(d.as_str(), "init.glyph")
}

} // verus!
