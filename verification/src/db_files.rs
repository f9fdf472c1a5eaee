//! The file layout of a database directory: `data/segment_<id>.dat` for
//! segment files, `log/wal.log` for the write-ahead log, and
//! `catalog/catalog.dat` for the catalog. This module only computes paths;
//! creating and removing the directories is the embedding program's work.

use vstd::prelude::*;

verus! {

/// The character for one decimal digit.
pub open spec fn dec_digit_char(d: int) -> char {
    if d == 0 {
        '0'
    } else if d == 1 {
        '1'
    } else if d == 2 {
        '2'
    } else if d == 3 {
        '3'
    } else if d == 4 {
        '4'
    } else if d == 5 {
        '5'
    } else if d == 6 {
        '6'
    } else if d == 7 {
        '7'
    } else if d == 8 {
        '8'
    } else {
        '9'
    }
}

/// The decimal digits of `n`, most significant first, without leading
/// zeros (just "0" for zero).
pub open spec fn dec_chars(n: int) -> Seq<char>
    recommends
        n >= 0,
    decreases n,
{
    if n < 10 {
        seq![dec_digit_char(n)]
    } else {
        dec_chars(n / 10) + seq![dec_digit_char(n % 10)]
    }
}

/// The characters of a least-significant-first digit list, read back most
/// significant first.
spec fn rev_digit_chars(ds: Seq<u64>) -> Seq<char>
    decreases ds.len(),
{
    if ds.len() == 0 {
        Seq::<char>::empty()
    } else {
        seq![dec_digit_char(ds.last() as int)] + rev_digit_chars(ds.drop_last())
    }
}

proof fn lemma_rev_digit_chars_index(ds: Seq<u64>)
    ensures
        rev_digit_chars(ds).len() == ds.len(),
        forall|j: int|
            0 <= j < ds.len() ==> rev_digit_chars(ds)[j] == dec_digit_char(
                ds[ds.len() - 1 - j] as int,
            ),
    decreases ds.len(),
{
    if ds.len() > 0 {
        lemma_rev_digit_chars_index(ds.drop_last());
    }
}

/// The appended character of one decimal digit.
fn push_digit_char(out: &mut String, d: u64)
    requires
        d < 10,
    ensures
        final(out)@ == old(out)@ + seq![dec_digit_char(d as int)],
{
    if d == 0 {
        proof {
            reveal_strlit("0");
        }
        out.append("0");
    } else if d == 1 {
        proof {
            reveal_strlit("1");
        }
        out.append("1");
    } else if d == 2 {
        proof {
            reveal_strlit("2");
        }
        out.append("2");
    } else if d == 3 {
        proof {
            reveal_strlit("3");
        }
        out.append("3");
    } else if d == 4 {
        proof {
            reveal_strlit("4");
        }
        out.append("4");
    } else if d == 5 {
        proof {
            reveal_strlit("5");
        }
        out.append("5");
    } else if d == 6 {
        proof {
            reveal_strlit("6");
        }
        out.append("6");
    } else if d == 7 {
        proof {
            reveal_strlit("7");
        }
        out.append("7");
    } else if d == 8 {
        proof {
            reveal_strlit("8");
        }
        out.append("8");
    } else {
        proof {
            reveal_strlit("9");
        }
        out.append("9");
    }
    proof {
        assert(final(out)@ =~= old(out)@ + seq![dec_digit_char(d as int)]);
    }
}

/// Renders `n` in decimal.
pub fn u64_to_dec_string(n: u64) -> (s: String)
    ensures
        s@ == dec_chars(n as int),
{
    let mut digits: Vec<u64> = Vec::new();
    let mut m = n;
    digits.push(m % 10);
    m = m / 10;
    proof {
        assert(digits@.drop_last() =~= Seq::<u64>::empty());
        assert(rev_digit_chars(Seq::<u64>::empty()) == Seq::<char>::empty());
        assert(digits@.last() == n % 10);
        assert(rev_digit_chars(digits@) =~= seq![dec_digit_char((n % 10) as int)]);
        if m == 0 {
            assert(n < 10);
            assert(dec_chars(n as int) =~= rev_digit_chars(digits@));
        } else {
            assert(n >= 10);
            assert(dec_chars(n as int) == dec_chars(n as int / 10) + seq![
                dec_digit_char(n as int % 10),
            ]);
            assert(dec_chars(n as int) =~= dec_chars(m as int) + rev_digit_chars(digits@));
        }
    }
    while m > 0
        invariant
            forall|j: int| 0 <= j < digits@.len() ==> (#[trigger] digits@[j]) < 10,
            digits@.len() >= 1,
            m == 0 ==> dec_chars(n as int) == rev_digit_chars(digits@),
            m > 0 ==> dec_chars(n as int) == dec_chars(m as int) + rev_digit_chars(digits@),
        decreases m,
    {
        let ghost pre = digits@;
        digits.push(m % 10);
        let m2 = m / 10;
        proof {
            assert(digits@.drop_last() =~= pre);
            assert(digits@.last() == m % 10);
            if m2 == 0 {
                assert(m < 10);
                assert(dec_chars(m as int) == seq![dec_digit_char(m as int)]);
                assert(dec_chars(n as int) =~= rev_digit_chars(digits@));
            } else {
                assert(dec_chars(m as int) == dec_chars(m as int / 10) + seq![
                    dec_digit_char(m as int % 10),
                ]);
                assert(rev_digit_chars(digits@) =~= seq![dec_digit_char((m % 10) as int)]
                    + rev_digit_chars(pre));
                assert(dec_chars(n as int) =~= dec_chars(m2 as int) + rev_digit_chars(digits@));
            }
        }
        m = m2;
    }
    proof {
        if n < 10 {
            assert(dec_chars(n as int) == rev_digit_chars(digits@));
        }
        lemma_rev_digit_chars_index(digits@);
    }

    let mut out = String::new();
    let count = digits.len();
    let mut i: usize = count;
    while i > 0
        invariant
            i <= count,
            count == digits@.len(),
            forall|j: int| 0 <= j < digits@.len() ==> (#[trigger] digits@[j]) < 10,
            out@.len() == count - i,
            forall|j: int|
                0 <= j < out@.len() ==> out@[j] == dec_digit_char(digits@[count - 1 - j] as int),
        decreases i,
    {
        push_digit_char(&mut out, digits[i - 1]);
        i = i - 1;
    }
    proof {
        lemma_rev_digit_chars_index(digits@);
        assert(out@ =~= rev_digit_chars(digits@));
    }
    out
}

/// The directory paths of one database instance.
pub struct DBFiles {
    pub db_directory: String,
    pub data_directory: String,
    pub log_directory: String,
    pub catalog_directory: String,
}

impl DBFiles {
    /// The paths under `db_path`: its `data`, `log` and `catalog`
    /// subdirectories.
    pub fn new(db_path: &str) -> (f: Self)
        ensures
            f.db_directory@ == db_path@,
            f.data_directory@ == db_path@ + "/data"@,
            f.log_directory@ == db_path@ + "/log"@,
            f.catalog_directory@ == db_path@ + "/catalog"@,
    {
        let db_directory = String::from_str(db_path);
        let mut data_directory = String::from_str(db_path);
        data_directory.append("/data");
        let mut log_directory = String::from_str(db_path);
        log_directory.append("/log");
        let mut catalog_directory = String::from_str(db_path);
        catalog_directory.append("/catalog");
        Self { db_directory, data_directory, log_directory, catalog_directory }
    }

    /// The path of the data file of segment `segment_id`.
    pub fn get_data_file_path(&self, segment_id: u16) -> (p: String)
        ensures
            p@ == self.data_directory@ + "/segment_"@ + dec_chars(segment_id as int) + ".dat"@,
    {
        let mut p = self.data_directory.clone();
        p.append("/segment_");
        let digits = u64_to_dec_string(segment_id as u64);
        p.append(digits.as_str());
        p.append(".dat");
        p
    }

    /// The path of the write-ahead log file.
    pub fn get_log_file_path(&self) -> (p: String)
        ensures
            p@ == self.log_directory@ + "/wal.log"@,
    {
        let mut p = self.log_directory.clone();
        p.append("/wal.log");
        p
    }

    /// The path of the catalog file.
    pub fn get_catalog_file_path(&self) -> (p: String)
        ensures
            p@ == self.catalog_directory@ + "/catalog.dat"@,
    {
        let mut p = self.catalog_directory.clone();
        p.append("/catalog.dat");
        p
    }
}

} // verus!
