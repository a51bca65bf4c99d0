//! Runtime configuration: the repository path to fall back to, team filters
//! matched against contributor emails, and a default analysis window.

use vstd::prelude::*;

verus! {

/// Configuration values, as the surrounding program loads them.
#[derive(Debug, Clone)]
pub struct Config {
    /// Repository path to use when the command line gives none.
    pub repository: Option<String>,
    /// Team markers: a contributor passes the filter when some marker is a
    /// substring of their email.
    pub teams: Vec<String>,
    /// Analysis window, in days, to use when the command line gives none.
    pub default_days: Option<i64>,
}

impl Default for Config {
    /// An empty configuration: no repository, no teams, no default window.
    fn default() -> (c: Self)
        ensures
            c.repository.is_none(),
            c.teams@.len() == 0,
            c.default_days.is_none(),
    {
        Config { repository: None, teams: Vec::new(), default_days: None }
    }
}

/// `needle` occurs contiguously inside `hay`.
pub open spec fn is_substring(needle: Seq<char>, hay: Seq<char>) -> bool {
    exists|o: int|
        0 <= o && o + needle.len() <= hay.len() && #[trigger] hay.subrange(o, o + needle.len())
            == needle
}

/// Substring search over characters: true exactly when `needle` occurs in
/// `hay`. An empty needle occurs in every string.
pub fn contains_str(hay: &str, needle: &str) -> (r: bool)
    ensures
        r == is_substring(needle@, hay@),
{
    let nlen = needle.unicode_len();
    let hlen = hay.unicode_len();
    if nlen > hlen {
        proof {
            if is_substring(needle@, hay@) {
                let o = choose|o: int|
                    0 <= o && o + needle@.len() <= hay@.len() && #[trigger] hay@.subrange(
                        o,
                        o + needle@.len(),
                    ) == needle@;
                assert(false);
            }
        }
        return false;
    }
    let limit = hlen - nlen;
    let mut o: usize = 0;
    let mut found: bool = false;
    loop
        invariant_except_break
            o <= limit,
        invariant
            nlen == needle@.len(),
            hlen == hay@.len(),
            nlen <= hlen,
            limit == hlen - nlen,
            0 <= o <= limit,
            forall|oo: int|
                0 <= oo < o ==> #[trigger] hay@.subrange(oo, oo + needle@.len()) != needle@,
            found ==> hay@.subrange(o as int, o as int + needle@.len()) == needle@,
        ensures
            (found && o <= limit && hay@.subrange(o as int, o as int + needle@.len()) == needle@)
                || (!found && forall|oo: int|
                0 <= oo <= limit ==> #[trigger] hay@.subrange(oo, oo + needle@.len()) != needle@),
        decreases limit - o + (if found {
            0int
        } else {
            1int
        }),
    {
        let mut j: usize = 0;
        let mut mismatch: bool = false;
        while j < nlen && !mismatch
            invariant
                j <= nlen,
                o + nlen <= hlen,
                nlen == needle@.len(),
                hlen == hay@.len(),
                !mismatch ==> forall|t: int| 0 <= t < j ==> hay@[o + t] == needle@[t],
                mismatch ==> hay@.subrange(o as int, o as int + needle@.len()) != needle@,
            decreases (nlen - j) * 2 + (if mismatch {
                0int
            } else {
                1int
            }),
        {
            if hay.get_char(o + j) == needle.get_char(j) {
                j += 1;
            } else {
                proof {
                    assert(hay@.subrange(o as int, o as int + needle@.len())[j as int] == hay@[o
                        + j]);
                }
                mismatch = true;
            }
        }
        if !mismatch {
            proof {
                assert(hay@.subrange(o as int, o as int + needle@.len()) =~= needle@);
            }
            found = true;
            break;
        }
        if o == limit {
            break;
        }
        o += 1;
    }
    if found {
        proof {
            assert(is_substring(needle@, hay@));
        }
        true
    } else {
        proof {
            if is_substring(needle@, hay@) {
                let oo = choose|oo: int|
                    0 <= oo && oo + needle@.len() <= hay@.len() && #[trigger] hay@.subrange(
                        oo,
                        oo + needle@.len(),
                    ) == needle@;
                assert(oo <= limit);
                assert(false);
            }
        }
        false
    }
}

/// Some team marker is a substring of the email.
pub open spec fn teams_match(teams: Seq<Seq<char>>, email: Seq<char>) -> bool {
    exists|ti: int| 0 <= ti < teams.len() && is_substring(#[trigger] teams[ti], email)
}

/// Whether the email matches any of the team markers.
pub fn email_matches_teams(teams: &Vec<String>, email: &str) -> (r: bool)
    ensures
        r == teams_match(teams.deep_view(), email@),
{
    let mut ti: usize = 0;
    let mut matched: bool = false;
    while ti < teams.len() && !matched
        invariant
            ti <= teams@.len(),
            !matched ==> forall|t: int|
                0 <= t < ti ==> !is_substring(#[trigger] teams.deep_view()[t], email@),
            matched ==> teams_match(teams.deep_view(), email@),
        decreases (teams@.len() - ti) * 2 + (if matched {
            0int
        } else {
            1int
        }),
    {
        proof {
            assert(teams.deep_view()[ti as int] == teams@[ti as int]@);
        }
        if contains_str(email, teams[ti].as_str()) {
            matched = true;
        } else {
            ti += 1;
        }
    }
    matched
}

/// What `get_days` returns: an explicit command-line value (neither of the
/// two defaults 0 and 30) wins; otherwise the configured default, if any;
/// otherwise the command-line value as given.
pub open spec fn spec_get_days(c: Config, cli_days: i64) -> i64 {
    if cli_days != 0 && cli_days != 30 {
        cli_days
    } else {
        match c.default_days {
            Some(d) => d,
            None => cli_days,
        }
    }
}

/// What `get_repo_path` returns: a command-line path other than `.` wins;
/// for `.`, the configured repository, if any; otherwise `.` itself.
pub open spec fn spec_repo_path(c: Config, cli: Seq<char>) -> Seq<char> {
    if cli == "."@ {
        match c.repository {
            Some(p) => p@,
            None => "."@,
        }
    } else {
        cli
    }
}

impl Config {
    /// The repository path to analyze, given the command-line argument.
    pub fn get_repo_path(&self, cli_repo: &str) -> (r: String)
        ensures
            r@ == spec_repo_path(*self, cli_repo@),
    {
        proof {
            reveal_strlit(".");
        }
        let is_dot = cli_repo.unicode_len() == 1 && cli_repo.get_char(0) == '.';
        proof {
            if is_dot {
                assert(cli_repo@ =~= "."@);
            } else {
                if cli_repo@ == "."@ {
                    assert(cli_repo@.len() == 1 && cli_repo@[0] == '.');
                }
            }
        }
        if is_dot {
            match &self.repository {
                Some(p) => p.clone(),
                None => ".".to_owned(),
            }
        } else {
            cli_repo.to_owned()
        }
    }

    /// Keep the items whose email matches a configured team marker; with no
    /// teams configured, keep everything unchanged.
    pub fn filter_by_teams<T>(&self, items: Vec<T>, get_email: impl Fn(&T) -> String) -> (r: Vec<
        T,
    >)
        requires
            forall|t: &T| #[trigger] get_email.requires((t,)),
        ensures
            self.teams@.len() == 0 ==> r@ == items@,
            r@.len() <= items@.len(),
            forall|j: int| 0 <= j < r@.len() ==> items@.contains(#[trigger] r@[j]),
            self.teams@.len() > 0 ==> exists|es: Seq<String>|
                #[trigger] es.len() == r@.len() && forall|j: int|
                    0 <= j < r@.len() ==> get_email.ensures((&r@[j],), #[trigger] es[j])
                        && teams_match(self.teams.deep_view(), es[j]@),
    {
        if self.teams.len() == 0 {
            return items;
        }
        let ghost orig = items@;
        let mut rest = items;
        let mut out: Vec<T> = Vec::new();
        let ghost mut emails: Seq<String> = Seq::empty();
        while rest.len() > 0
            invariant
                forall|t: &T| #[trigger] get_email.requires((t,)),
                out@.len() + rest@.len() <= orig.len(),
                forall|j: int| 0 <= j < out@.len() ==> orig.contains(#[trigger] out@[j]),
                forall|j: int| 0 <= j < rest@.len() ==> orig.contains(#[trigger] rest@[j]),
                emails.len() == out@.len(),
                forall|j: int|
                    0 <= j < out@.len() ==> get_email.ensures((&out@[j],), #[trigger] emails[j])
                        && teams_match(self.teams.deep_view(), emails[j]@),
            decreases rest@.len(),
        {
            let ghost old_rest = rest@;
            let it = rest.remove(0);
            proof {
                assert(old_rest.contains(old_rest[0]));
                assert(forall|j: int|
                    0 <= j < rest@.len() ==> #[trigger] rest@[j] == old_rest[j + 1]);
                assert(forall|j: int|
                    0 <= j < rest@.len() ==> old_rest.contains(#[trigger] rest@[j]));
            }
            let email = get_email(&it);
            if email_matches_teams(&self.teams, email.as_str()) {
                let ghost old_out = out@;
                let ghost old_emails = emails;
                out.push(it);
                proof {
                    emails = emails.push(email);
                    assert(forall|j: int| 0 <= j < old_out.len() ==> #[trigger] out@[j] == old_out[j]);
                    assert(forall|j: int|
                        0 <= j < old_emails.len() ==> #[trigger] emails[j] == old_emails[j]);
                    assert(out@[out@.len() - 1] == it);
                    assert(emails[emails.len() - 1] == email);
                }
            }
        }
        proof {
            assert(emails.len() == out@.len() && forall|j: int|
                0 <= j < out@.len() ==> get_email.ensures((&out@[j],), #[trigger] emails[j])
                    && teams_match(self.teams.deep_view(), emails[j]@));
        }
        out
    }

    /// The analysis window in days, given the command-line value.
    pub fn get_days(&self, cli_days: i64) -> (r: i64)
        ensures
            r == spec_get_days(*self, cli_days),
    {
        if cli_days != 0 && cli_days != 30 {
            cli_days
        } else {
            match self.default_days {
                Some(d) => d,
                None => cli_days,
            }
        }
    }
}

} // verus!
