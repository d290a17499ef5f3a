//! Command-line argument parsing: a pure function from the argument
//! list to a parsed command. The caller reads the process arguments,
//! hands them over as plain strings, and prints and exits on the error
//! this parser returns.

use vstd::prelude::*;

verus! {

/// A parsed command: which operation runs and with what.
#[derive(Debug)]
pub struct Args {
    pub make: bool,
    pub archiveName: String,
    pub extract: bool,
    pub archivePath: String,
    pub extractPath: String,
    pub elements: Vec<String>,
    pub verbose: bool,
    pub help: bool,
    pub version: bool,
    pub inspect: bool,
}

/// A flag that takes an operand stood last.
#[derive(Clone, Copy, Debug, PartialEq, Eq, Structural)]
pub enum ArgsError {
    /// `-m | --make` with no archive name after it.
    ExpectedArchiveName,
    /// `-e | --extract` with no archive after it.
    ExpectedExtractionPath,
    /// `-i | --inspect` with no archive after it.
    ExpectedInspectPath,
}

/// The mathematical parsed command.
#[verifier::ext_equal]
pub struct GArgs {
    pub make: bool,
    pub archiveName: Seq<char>,
    pub extract: bool,
    pub archivePath: Seq<char>,
    pub extractPath: Seq<char>,
    pub elements: Seq<Seq<char>>,
    pub verbose: bool,
    pub help: bool,
    pub version: bool,
    pub inspect: bool,
}

pub open spec fn vargs(a: Args) -> GArgs {
    GArgs {
        make: a.make,
        archiveName: a.archiveName@,
        extract: a.extract,
        archivePath: a.archivePath@,
        extractPath: a.extractPath@,
        elements: velems(a.elements@),
        verbose: a.verbose,
        help: a.help,
        version: a.version,
        inspect: a.inspect,
    }
}

pub open spec fn velems(s: Seq<String>) -> Seq<Seq<char>>
    decreases s,
{
    if s.len() == 0 {
        Seq::empty()
    } else {
        seq![s[0]@] + velems(s.drop_first())
    }
}

pub proof fn lemma_velems_index(s: Seq<String>)
    ensures
        velems(s).len() == s.len(),
        forall|i: int| 0 <= i < s.len() ==> velems(s)[i] == (#[trigger] s[i])@,
    decreases s,
{
    if s.len() > 0 {
        lemma_velems_index(s.drop_first());
        assert forall|i: int| 0 <= i < s.len() implies velems(s)[i] == (#[trigger] s[i])@ by {
            if i > 0 {
                assert(s.drop_first()[i - 1] == s[i]);
                assert(velems(s)[i] == velems(s.drop_first())[i - 1]);
            }
        }
    }
}

proof fn lemma_velems_push(s: Seq<String>, x: String)
    ensures
        velems(s.push(x)) =~= velems(s).push(x@),
{
    lemma_velems_index(s);
    lemma_velems_index(s.push(x));
    assert forall|i: int| 0 <= i < s.len() + 1 implies velems(s.push(x))[i] == velems(s).push(
        x@,
    )[i] by {
        if i < s.len() {
            assert(s.push(x)[i] == s[i]);
        } else {
            assert(s.push(x)[i] == x);
        }
    }
}

/// The state every parse starts from: everything off and empty.
pub open spec fn g_default() -> GArgs {
    GArgs {
        make: false,
        archiveName: Seq::empty(),
        extract: false,
        archivePath: Seq::empty(),
        extractPath: Seq::empty(),
        elements: Seq::empty(),
        verbose: false,
        help: false,
        version: false,
        inspect: false,
    }
}

/// The extraction path defaults to the current directory when no
/// operand set it.
pub open spec fn g_finish(acc: GArgs) -> GArgs {
    if acc.extractPath.len() == 0 {
        GArgs { extractPath: "."@, ..acc }
    } else {
        acc
    }
}

/// One pass over the arguments from position `i`: flags set their
/// switch, a flag that takes an operand consumes the next argument and
/// fails when there is none, and a bare argument is the extraction
/// path in extract mode or one more element to pack otherwise.
pub open spec fn sp_parse(args: Seq<Seq<char>>, i: int, acc: GArgs) -> Result<GArgs, ArgsError>
    decreases args.len() - i,
{
    if i < 0 || i >= args.len() {
        Ok(g_finish(acc))
    } else {
        let chunk = args[i];
        if chunk == "-m"@ || chunk == "--make"@ {
            if i + 1 >= args.len() {
                Err(ArgsError::ExpectedArchiveName)
            } else {
                sp_parse(args, i + 2, GArgs { make: true, archiveName: args[i + 1], ..acc })
            }
        } else if chunk == "-e"@ || chunk == "--extract"@ {
            if i + 1 >= args.len() {
                Err(ArgsError::ExpectedExtractionPath)
            } else {
                sp_parse(args, i + 2, GArgs { extract: true, archivePath: args[i + 1], ..acc })
            }
        } else if chunk == "-v"@ || chunk == "--verbose"@ {
            sp_parse(args, i + 1, GArgs { verbose: true, ..acc })
        } else if chunk == "-h"@ || chunk == "--help"@ {
            sp_parse(args, i + 1, GArgs { help: true, ..acc })
        } else if chunk == "-V"@ || chunk == "--version"@ {
            sp_parse(args, i + 1, GArgs { version: true, ..acc })
        } else if chunk == "-i"@ || chunk == "--inspect"@ {
            if i + 1 >= args.len() {
                Err(ArgsError::ExpectedInspectPath)
            } else {
                sp_parse(args, i + 2, GArgs { inspect: true, archivePath: args[i + 1], ..acc })
            }
        } else {
            if acc.extract {
                sp_parse(args, i + 1, GArgs { extractPath: chunk, ..acc })
            } else {
                sp_parse(args, i + 1, GArgs { elements: acc.elements.push(chunk), ..acc })
            }
        }
    }
}

impl Args {
    /// The state every parse starts from: everything off and empty.
    pub fn new() -> (a: Args)
        ensures
            vargs(a) == g_default(),
    {
        let a = Args {
            make: false,
            archiveName: String::new(),
            extract: false,
            archivePath: String::new(),
            extractPath: String::new(),
            elements: Vec::<String>::new(),
            verbose: false,
            help: false,
            version: false,
            inspect: false,
        };
        proof {
            assert(velems(a.elements@) =~= Seq::<Seq<char>>::empty());
            assert(vargs(a) =~= g_default());
        }
        a
    }

    /// Parses the argument list, exactly as `sp_parse` from the default
    /// state describes; the error names the flag whose operand was
    /// missing.
    pub fn parse(stdargs: Vec<String>) -> (r: Result<Args, ArgsError>)
        ensures
            match r {
                Ok(a) => sp_parse(velems(stdargs@), 0, g_default()) == Ok::<GArgs, ArgsError>(
                    vargs(a),
                ),
                Err(e) => sp_parse(velems(stdargs@), 0, g_default()) == Err::<GArgs, ArgsError>(e),
            },
    {
        let mut args = Args::new();
        let mut index: usize = 0;
        let n = stdargs.len();
        let ghost gargs = velems(stdargs@);
        proof {
            lemma_velems_index(stdargs@);
        }
        let m_short = String::from_str("-m");
        let m_long = String::from_str("--make");
        let e_short = String::from_str("-e");
        let e_long = String::from_str("--extract");
        let v_short = String::from_str("-v");
        let v_long = String::from_str("--verbose");
        let h_short = String::from_str("-h");
        let h_long = String::from_str("--help");
        let ver_short = String::from_str("-V");
        let ver_long = String::from_str("--version");
        let i_short = String::from_str("-i");
        let i_long = String::from_str("--inspect");
        while index < n
            invariant
                index <= n,
                n == stdargs@.len(),
                gargs == velems(stdargs@),
                gargs.len() == n,
                forall|j: int| 0 <= j < n ==> gargs[j] == (#[trigger] stdargs@[j])@,
                m_short@ == "-m"@,
                m_long@ == "--make"@,
                e_short@ == "-e"@,
                e_long@ == "--extract"@,
                v_short@ == "-v"@,
                v_long@ == "--verbose"@,
                h_short@ == "-h"@,
                h_long@ == "--help"@,
                ver_short@ == "-V"@,
                ver_long@ == "--version"@,
                i_short@ == "-i"@,
                i_long@ == "--inspect"@,
                sp_parse(gargs, 0, g_default()) == sp_parse(gargs, index as int, vargs(args)),
            decreases n - index,
        {
            let chunk = &stdargs[index];
            let ghost acc = vargs(args);
            if *chunk == m_short || *chunk == m_long {
                if index + 1 >= n {
                    return Err(ArgsError::ExpectedArchiveName);
                }
                args.make = true;
                args.archiveName = stdargs[index + 1].clone();
                proof {
                    assert(vargs(args) =~= GArgs {
                        make: true,
                        archiveName: gargs[index + 1],
                        ..acc
                    });
                }
                index = index + 2;
            } else if *chunk == e_short || *chunk == e_long {
                if index + 1 >= n {
                    return Err(ArgsError::ExpectedExtractionPath);
                }
                args.extract = true;
                args.archivePath = stdargs[index + 1].clone();
                proof {
                    assert(vargs(args) =~= GArgs {
                        extract: true,
                        archivePath: gargs[index + 1],
                        ..acc
                    });
                }
                index = index + 2;
            } else if *chunk == v_short || *chunk == v_long {
                args.verbose = true;
                proof {
                    assert(vargs(args) =~= GArgs { verbose: true, ..acc });
                }
                index = index + 1;
            } else if *chunk == h_short || *chunk == h_long {
                args.help = true;
                proof {
                    assert(vargs(args) =~= GArgs { help: true, ..acc });
                }
                index = index + 1;
            } else if *chunk == ver_short || *chunk == ver_long {
                args.version = true;
                proof {
                    assert(vargs(args) =~= GArgs { version: true, ..acc });
                }
                index = index + 1;
            } else if *chunk == i_short || *chunk == i_long {
                if index + 1 >= n {
                    return Err(ArgsError::ExpectedInspectPath);
                }
                args.inspect = true;
                args.archivePath = stdargs[index + 1].clone();
                proof {
                    assert(vargs(args) =~= GArgs {
                        inspect: true,
                        archivePath: gargs[index + 1],
                        ..acc
                    });
                }
                index = index + 2;
            } else {
                if args.extract {
                    args.extractPath = chunk.clone();
                    proof {
                        assert(vargs(args) =~= GArgs { extractPath: gargs[index as int], ..acc });
                    }
                } else {
                    let ghost elems = args.elements@;
                    args.elements.push(chunk.clone());
                    proof {
                        lemma_velems_push(elems, stdargs@[index as int]);
                        assert(vargs(args) =~= GArgs {
                            elements: acc.elements.push(gargs[index as int]),
                            ..acc
                        });
                    }
                }
                index = index + 1;
            }
        }
        let ghost before = vargs(args);
        proof {
            assert(sp_parse(gargs, index as int, before) == Ok::<GArgs, ArgsError>(
                g_finish(before),
            ));
        }
        if args.extractPath.as_str().is_empty() {
            args.extractPath = String::from_str(".");
            proof {
                assert(vargs(args) =~= g_finish(before));
            }
        } else {
            proof {
                assert(vargs(args) =~= g_finish(before));
            }
        }
        Ok(args)
    }
}

} // verus!
