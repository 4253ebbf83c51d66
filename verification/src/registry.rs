//! The five regional internet registries, plus a sentinel for all of them.

use vstd::prelude::*;

verus! {

#[derive(Clone, Copy, PartialEq, Eq, Structural, Debug)]
pub enum Registry {
    All,
    AFRINIC,
    APNIC,
    ARIN,
    LACNIC,
    RIPE,
}

/// Case-insensitive (ASCII) match of `s` against an uppercase name.
pub open spec fn name_matches(s: Seq<char>, upper: Seq<char>) -> bool {
    s.len() == upper.len() && forall|i: int| #![trigger s[i]]
        0 <= i < s.len() ==> (s[i] == upper[i] || (97 <= s[i] as int <= 122 && s[i] as int - 32
            == upper[i] as int))
}

fn eq_ignore_ascii_case(s: &str, upper: &str) -> (r: bool)
    ensures
        r == name_matches(s@, upper@),
{
    let n = s.unicode_len();
    if n != upper.unicode_len() {
        return false;
    }
    let mut i: usize = 0;
    while i < n
        invariant
            i <= n,
            n == s@.len() == upper@.len(),
            forall|j: int| #![trigger s@[j]]
                0 <= j < i ==> (s@[j] == upper@[j] || (97 <= s@[j] as int <= 122 && s@[j] as int
                    - 32 == upper@[j] as int)),
        decreases n - i,
    {
        let c = s.get_char(i) as u32;
        let u = upper.get_char(i) as u32;
        if !(c == u || (97 <= c && c <= 122 && c - 32 == u)) {
            return false;
        }
        i = i + 1;
    }
    true
}

impl Registry {
    /// The well-known URL of this registry's delegation stats file.
    pub fn stats_url(self) -> (r: &'static str)
        requires
            self != Registry::All,
        ensures
            self == Registry::AFRINIC ==> r@
                == "http://ftp.afrinic.net/pub/stats/afrinic/delegated-afrinic-latest"@,
            self == Registry::APNIC ==> r@
                == "http://ftp.apnic.net/stats/apnic/delegated-apnic-latest"@,
            self == Registry::ARIN ==> r@
                == "http://ftp.arin.net/pub/stats/arin/delegated-arin-extended-latest"@,
            self == Registry::LACNIC ==> r@
                == "http://ftp.lacnic.net/pub/stats/lacnic/delegated-lacnic-latest"@,
            self == Registry::RIPE ==> r@
                == "https://ftp.ripe.net/pub/stats/ripencc/delegated-ripencc-latest"@,
    {
        match self {
            Registry::AFRINIC => "http://ftp.afrinic.net/pub/stats/afrinic/delegated-afrinic-latest",
            Registry::APNIC => "http://ftp.apnic.net/stats/apnic/delegated-apnic-latest",
            Registry::ARIN => "http://ftp.arin.net/pub/stats/arin/delegated-arin-extended-latest",
            Registry::LACNIC => "http://ftp.lacnic.net/pub/stats/lacnic/delegated-lacnic-latest",
            Registry::RIPE => "https://ftp.ripe.net/pub/stats/ripencc/delegated-ripencc-latest",
            Registry::All => "",
        }
    }

    /// Whether this is the sentinel standing for every registry.
    pub fn is_all(self) -> (r: bool)
        ensures
            r == (self == Registry::All),
    {
        match self {
            Registry::All => true,
            _ => false,
        }
    }

    /// Resolves a registry name, case-insensitively.
    pub fn from_name(s: &str) -> (r: Option<Registry>)
        ensures
            name_matches(s@, "AFRINIC"@) ==> r == Some(Registry::AFRINIC),
            name_matches(s@, "APNIC"@) ==> r == Some(Registry::APNIC),
            name_matches(s@, "ARIN"@) ==> r == Some(Registry::ARIN),
            name_matches(s@, "LACNIC"@) ==> r == Some(Registry::LACNIC),
            name_matches(s@, "RIPE"@) ==> r == Some(Registry::RIPE),
            name_matches(s@, "ALL"@) ==> r == Some(Registry::All),
            !name_matches(s@, "AFRINIC"@) && !name_matches(s@, "APNIC"@) && !name_matches(
                s@,
                "ARIN"@,
            ) && !name_matches(s@, "LACNIC"@) && !name_matches(s@, "RIPE"@) && !name_matches(
                s@,
                "ALL"@,
            ) ==> r is None,
    {
        proof {
            reveal_strlit("AFRINIC");
            reveal_strlit("APNIC");
            reveal_strlit("ARIN");
            reveal_strlit("LACNIC");
            reveal_strlit("RIPE");
            reveal_strlit("ALL");
            if name_matches(s@, "ARIN"@) && name_matches(s@, "RIPE"@) {
                assert(s@[0] == 'A' || s@[0] as int == 97);
                assert(s@[0] == 'R' || s@[0] as int == 114);
                assert(false);
            }
        }
        if eq_ignore_ascii_case(s, "AFRINIC") {
            Some(Registry::AFRINIC)
        } else if eq_ignore_ascii_case(s, "APNIC") {
            Some(Registry::APNIC)
        } else if eq_ignore_ascii_case(s, "ARIN") {
            Some(Registry::ARIN)
        } else if eq_ignore_ascii_case(s, "LACNIC") {
            Some(Registry::LACNIC)
        } else if eq_ignore_ascii_case(s, "RIPE") {
            Some(Registry::RIPE)
        } else if eq_ignore_ascii_case(s, "ALL") {
            Some(Registry::All)
        } else {
            None
        }
    }
}

} // verus!
