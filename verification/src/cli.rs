//! Command lines.
use vstd::prelude::*;
use crate::text::{same, views};

verus! {

/// Where to listen and where to keep the data.
#[derive(Debug)]
pub struct Args {
    pub listen: String,
    pub db_path: String,
}

/// What a command line asks for.
#[derive(Debug)]
pub enum Request {
    /// To run, with these arguments.
    Run(Args),
    /// To show the usage.
    Help,
}

/// What is read of a command line: the arguments so far, the words that were not known, and
/// whether the usage was asked for, which ends the reading.
pub struct Reading {
    pub listen: Seq<char>,
    pub db_path: Seq<char>,
    pub ignored: Seq<Seq<char>>,
    pub help: bool,
}

/// The reading from the `i`-th word on. A flag takes the next word, if there is one; the
/// last of equal flags counts.
pub open spec fn reading_from(words: Seq<Seq<char>>, i: int, r: Reading) -> Reading
    decreases words.len() - i,
{
    if i < 0 || i >= words.len() {
        r
    } else if words[i] == "--listen"@ {
        if i + 1 < words.len() {
            reading_from(words, i + 2, Reading { listen: words[i + 1], ..r })
        } else {
            r
        }
    } else if words[i] == "--db"@ {
        if i + 1 < words.len() {
            reading_from(words, i + 2, Reading { db_path: words[i + 1], ..r })
        } else {
            r
        }
    } else if words[i] == "--help"@ || words[i] == "-h"@ {
        Reading { help: true, ..r }
    } else {
        reading_from(words, i + 1, Reading { ignored: r.ignored.push(words[i]), ..r })
    }
}

/// The reading of a command line without the name of the program.
pub open spec fn reading_of(words: Seq<Seq<char>>) -> Reading {
    reading_from(
        words,
        0,
        Reading {
            listen: "127.0.0.1:5512"@,
            db_path: "mastercurve.db"@,
            ignored: Seq::empty(),
            help: false,
        },
    )
}

/// Reads a command line without the name of the program. Words that are not known are
/// passed over and given back.
pub fn parse_args(words: &Vec<String>) -> (r: (Request, Vec<String>))
    ensures
        ({
            let want = reading_of(views(words@));
            &&& views(r.1@) == want.ignored
            &&& match r.0 {
                Request::Run(a) => !want.help && a.listen@ == want.listen && a.db_path@
                    == want.db_path,
                Request::Help => want.help,
            }
        }),
{
    let ghost all = views(words@);
    let mut listen: String = "127.0.0.1:5512".to_owned();
    let mut db_path: String = "mastercurve.db".to_owned();
    let mut ignored: Vec<String> = Vec::new();
    let n: usize = words.len();
    let mut i: usize = 0;
    proof {
        assert(views(ignored@) =~= Seq::empty());
    }
    while i < n
        invariant_except_break
            reading_of(all) == reading_from(
                all,
                i as int,
                Reading {
                    listen: listen@,
                    db_path: db_path@,
                    ignored: views(ignored@),
                    help: false,
                },
            ),
        invariant
            all == views(words@),
            n == words@.len(),
            i <= n,
        ensures
            reading_of(all) == (Reading {
                listen: listen@,
                db_path: db_path@,
                ignored: views(ignored@),
                help: false,
            }),
        decreases n - i,
    {
        proof {
            assert(all[i as int] == words@[i as int]@);
        }
        let w: &str = words[i].as_str();
        if same(w, "--listen") {
            if n - i <= 1 {
                break;
            }
            proof {
                assert(all[i + 1] == words@[i + 1]@);
            }
            listen = words[i + 1].clone();
            i = i + 2;
        } else if same(w, "--db") {
            if n - i <= 1 {
                break;
            }
            proof {
                assert(all[i + 1] == words@[i + 1]@);
            }
            db_path = words[i + 1].clone();
            i = i + 2;
        } else if same(w, "--help") || same(w, "-h") {
            return (Request::Help, ignored);
        } else {
            let ghost before = views(ignored@);
            ignored.push(words[i].clone());
            proof {
                assert(views(ignored@) =~= before.push(all[i as int]));
            }
            i = i + 1;
        }
    }
    (Request::Run(Args { listen, db_path }), ignored)
}

/// Only the usage flags ask for the usage.
pub proof fn law_help_is_asked_for(words: Seq<Seq<char>>)
    requires
        reading_of(words).help,
    ensures
        words.contains("--help"@) || words.contains("-h"@),
{
    lemma_help_from(
        words,
        0,
        Reading {
            listen: "127.0.0.1:5512"@,
            db_path: "mastercurve.db"@,
            ignored: Seq::empty(),
            help: false,
        },
    );
}

proof fn lemma_help_from(words: Seq<Seq<char>>, i: int, r: Reading)
    requires
        0 <= i,
        !r.help,
        reading_from(words, i, r).help,
    ensures
        words.contains("--help"@) || words.contains("-h"@),
    decreases words.len() - i,
{
    if i < words.len() {
        if words[i] == "--listen"@ {
            if i + 1 < words.len() {
                lemma_help_from(words, i + 2, Reading { listen: words[i + 1], ..r });
            }
        } else if words[i] == "--db"@ {
            if i + 1 < words.len() {
                lemma_help_from(words, i + 2, Reading { db_path: words[i + 1], ..r });
            }
        } else if words[i] == "--help"@ {
            assert(words.contains(words[i]));
        } else if words[i] == "-h"@ {
            assert(words.contains(words[i]));
        } else {
            lemma_help_from(words, i + 1, Reading { ignored: r.ignored.push(words[i]), ..r });
        }
    }
}

} // verus!
