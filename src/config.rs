use vstd::prelude::*;
use crate::reference::TodoError;
use crate::text::{chars_of, push_all, same_chars, slice_of, string_of};
use crate::task::is_digit;

verus! {

/// Where the files are and which time zone gives "today".
#[derive(Debug, Clone)]
pub struct Config {
    pub todo_path: String,
    pub done_path: String,
    pub timezone: String,
}

pub fn default_todo_path() -> (r: String)
    ensures
        r@ == "./TODO.md"@,
{
    String::from_str("./TODO.md")
}

pub fn default_done_path() -> (r: String)
    ensures
        r@ == "./done_list.md"@,
{
    String::from_str("./done_list.md")
}

pub fn default_timezone() -> (r: String)
    ensures
        r@ == "Local"@,
{
    String::from_str("Local")
}

impl Default for Config {
    fn default() -> (r: Config)
        ensures
            r.todo_path@ == "./TODO.md"@,
            r.done_path@ == "./done_list.md"@,
            r.timezone@ == "Local"@,
    {
        Config {
            todo_path: default_todo_path(),
            done_path: default_done_path(),
            timezone: default_timezone(),
        }
    }
}

/// `rest` put under `base` as a path: an absolute `rest` stands alone, an
/// empty `base` adds nothing, else one `/` separates them.
pub open spec fn join_path(base: Seq<char>, rest: Seq<char>) -> Seq<char> {
    if rest.len() > 0 && rest[0] == '/' {
        rest
    } else if base.len() == 0 {
        rest
    } else if base.last() == '/' {
        base + rest
    } else {
        base + seq!['/'] + rest
    }
}

pub open spec fn starts_home(p: Seq<char>) -> bool {
    p.len() >= 2 && p[0] == '~' && p[1] == '/'
}

/// The path that `path` stands for, given the home directory.
pub open spec fn expanded(path: Seq<char>, home: Option<Seq<char>>) -> Option<Seq<char>> {
    if starts_home(path) {
        match home {
            Some(h) => Some(join_path(h, path.skip(2))),
            None => None,
        }
    } else {
        Some(path)
    }
}

/// Expands a leading `~/` to the home directory `home`.
pub fn expand_with_home(path: &str, home: Option<String>) -> (r: Result<String, TodoError>)
    ensures
        match r {
            Ok(p) => expanded(path@, crate::task::opt_view(home)) == Some(p@),
            Err(e) => expanded(path@, crate::task::opt_view(home)) is None && e
                == TodoError::HomeNotFound,
        },
{
    let p = chars_of(path);
    if p.len() >= 2 && p[0] == '~' && p[1] == '/' {
        match home {
            None => Err(TodoError::HomeNotFound),
            Some(h) => {
                let base = chars_of(h.as_str());
                let rest = slice_of(&p, 2, p.len());
                proof {
                    assert(rest@ =~= path@.skip(2));
                }
                if rest.len() > 0 && rest[0] == '/' {
                    Ok(string_of(&rest))
                } else if base.len() == 0 {
                    Ok(string_of(&rest))
                } else {
                    let mut out = slice_of(&base, 0, base.len());
                    proof {
                        assert(out@ =~= base@);
                    }
                    if base[base.len() - 1] != '/' {
                        out.push('/');
                    }
                    push_all(&mut out, &rest);
                    proof {
                        assert(base@.last() == base@[base.len() - 1]);
                        if base@.last() == '/' {
                            assert(out@ =~= base@ + rest@);
                        } else {
                            assert(out@ =~= base@ + seq!['/'] + rest@);
                        }
                    }
                    Ok(string_of(&out))
                }
            },
        }
    } else {
        Ok(String::from_str(path))
    }
}

/// Relies on `dirs::home_dir`: the user's home directory, if the system gives one.
#[verifier::external_body]
fn home_dir() -> (r: Option<String>) {
    dirs::home_dir().map(|p| p.to_string_lossy().into_owned())
}

#[verifier::external_type_specification]
#[verifier::external_body]
pub struct ExTz(chrono_tz::Tz);

/// The names that chrono-tz's zone table holds.
pub uninterp spec fn is_zone_name(name: Seq<char>) -> bool;

/// Relies on chrono-tz's `Tz::from_str`: a zone exactly for the names its table holds.
#[verifier::external_body]
fn parse_zone(name: &str) -> (r: Option<chrono_tz::Tz>)
    ensures
        r is Some <==> is_zone_name(name@),
{
    name.parse::<chrono_tz::Tz>().ok()
}

/// Relies on chrono's `Utc::now` shown in `tz` and formatted as `%Y-%m-%d`:
/// the year padded to at least four digits, month and day to two.
#[verifier::external_body]
fn zone_today(tz: &chrono_tz::Tz) -> (r: String)
    ensures
        date_form(r@),
{
    chrono::Utc::now().with_timezone(tz).format("%Y-%m-%d").to_string()
}

/// Relies on chrono's `Local::now` formatted as `%Y-%m-%d`: the year padded
/// to at least four digits, month and day to two.
#[verifier::external_body]
fn local_today() -> (r: String)
    ensures
        date_form(r@),
{
    chrono::Local::now().format("%Y-%m-%d").to_string()
}

/// An optional sign, at least four digits, `-`, two digits, `-`, two digits:
/// what `%Y-%m-%d` writes.
pub open spec fn date_form(s: Seq<char>) -> bool {
    let n = s.len();
    let head = s.take(n - 6);
    let year = if head.len() > 0 && (head[0] == '+' || head[0] == '-') {
        head.skip(1)
    } else {
        head
    };
    &&& n >= 10
    &&& s[n - 6] == '-' && s[n - 3] == '-'
    &&& is_digit(s[n - 5]) && is_digit(s[n - 4]) && is_digit(s[n - 2]) && is_digit(s[n - 1])
    &&& year.len() >= 4
    &&& forall|i: int| 0 <= i < year.len() ==> is_digit(#[trigger] year[i])
}

pub open spec fn local_word() -> Seq<char> {
    seq!['L', 'o', 'c', 'a', 'l']
}

impl Config {
    /// Expands a leading `~/` to the user's home directory.
    pub fn expand_path(path: &str) -> (r: Result<String, TodoError>)
        ensures
            r matches Ok(p) ==> exists|home: Option<Seq<char>>| expanded(path@, home) == Some(p@),
            !starts_home(path@) ==> (r matches Ok(p) && p@ == path@),
            r is Err ==> starts_home(path@) && r == Err::<String, TodoError>(TodoError::HomeNotFound),
    {
        let home = home_dir();
        let ghost hv = crate::task::opt_view(home);
        let r = expand_with_home(path, home);
        proof {
            if r is Ok {
                assert(expanded(path@, hv) == Some(r->Ok_0@));
            }
        }
        r
    }

    /// The path of the task list.
    pub fn todo_path(&self) -> (r: Result<String, TodoError>)
        ensures
            !starts_home(self.todo_path@) ==> (r matches Ok(p) && p@ == self.todo_path@),
            r matches Ok(p) ==> exists|home: Option<Seq<char>>| expanded(self.todo_path@, home) == Some(p@),
            r is Err ==> starts_home(self.todo_path@) && r == Err::<String, TodoError>(TodoError::HomeNotFound),
    {
        Config::expand_path(self.todo_path.as_str())
    }

    /// The path of the archive log.
    pub fn done_path(&self) -> (r: Result<String, TodoError>)
        ensures
            !starts_home(self.done_path@) ==> (r matches Ok(p) && p@ == self.done_path@),
            r matches Ok(p) ==> exists|home: Option<Seq<char>>| expanded(self.done_path@, home) == Some(p@),
            r is Err ==> starts_home(self.done_path@) && r == Err::<String, TodoError>(TodoError::HomeNotFound),
    {
        Config::expand_path(self.done_path.as_str())
    }

    /// Today's date as `YYYY-MM-DD`, in the local zone where the time zone is
    /// `Local`, else in the named zone; an unknown name is an error.
    pub fn today_str(&self) -> (r: Result<String, TodoError>)
        ensures
            r is Ok <==> (self.timezone@ == local_word() || is_zone_name(self.timezone@)),
            r matches Ok(d) ==> date_form(d@),
            match r {
                Ok(_) => true,
                Err(e) => e matches TodoError::InvalidTimezone(n) && n@ == self.timezone@,
            },
    {
        let tz = chars_of(self.timezone.as_str());
        let mut word: Vec<char> = Vec::new();
        word.push('L');
        word.push('o');
        word.push('c');
        word.push('a');
        word.push('l');
        proof {
            assert(word@ =~= local_word());
        }
        if same_chars(&tz, &word) {
            Ok(local_today())
        } else {
            match parse_zone(self.timezone.as_str()) {
                Some(z) => Ok(zone_today(&z)),
                None => Err(TodoError::InvalidTimezone(self.timezone.clone())),
            }
        }
    }
}

} // verus!
