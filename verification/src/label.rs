use vstd::prelude::*;
use vstd::string::StringExecFns;

verus! {

/// One argument of an instrumentation annotation: the module path of the
/// instrumented code, or a name for it.
#[derive(Debug)]
pub enum LabelArg {
    Path(String),
    Name(String),
}

/// The mathematical value of a [`LabelArg`].
pub enum LabelArgView {
    Path(Seq<char>),
    Name(Seq<char>),
}

impl View for LabelArg {
    type V = LabelArgView;

    open spec fn view(&self) -> LabelArgView {
        match self {
            LabelArg::Path(path) => LabelArgView::Path(path@),
            LabelArg::Name(name) => LabelArgView::Name(name@),
        }
    }
}

/// The views of a sequence of arguments, in order.
pub open spec fn args_view(args: Seq<LabelArg>) -> Seq<LabelArgView> {
    args.map_values(|a: LabelArg| a@)
}

/// Why an annotation gives no label. The index is that of the argument at
/// fault.
#[derive(Clone, Copy, Debug, PartialEq, Eq)]
pub enum LabelError {
    /// The argument is a second path.
    PathRepeated(usize),
    /// The argument is a second name.
    NameRepeated(usize),
    /// No name is given and the instrumented code is a block, which has none.
    NameMissing,
}

/// Argument `at` is a path and so is an earlier argument, or it is a name
/// and so is an earlier argument.
pub open spec fn repeats(args: Seq<LabelArgView>, at: int) -> bool {
    &&& 0 <= at < args.len()
    &&& exists|earlier: int|
        0 <= earlier < at && ((#[trigger] args[earlier]) is Path <==> args[at] is Path)
}

/// The path among the arguments, where there is one.
pub open spec fn given_path(args: Seq<LabelArgView>) -> Option<Seq<char>>
    decreases args.len(),
{
    if args.len() == 0 {
        None
    } else {
        match args.first() {
            LabelArgView::Path(path) => Some(path),
            LabelArgView::Name(_) => given_path(args.drop_first()),
        }
    }
}

/// The name among the arguments, where there is one.
pub open spec fn given_name(args: Seq<LabelArgView>) -> Option<Seq<char>>
    decreases args.len(),
{
    if args.len() == 0 {
        None
    } else {
        match args.first() {
            LabelArgView::Name(name) => Some(name),
            LabelArgView::Path(_) => given_name(args.drop_first()),
        }
    }
}

/// The label for a name under an optional path: `path::name`, or the name
/// alone.
pub open spec fn joined(path: Option<Seq<char>>, name: Seq<char>) -> Seq<char> {
    match path {
        Some(path) => path + seq![':', ':'] + name,
        None => name,
    }
}

/// The label that an annotation gives to the code it instruments. The name
/// is the one given, else the name of the instrumented function; it stands
/// behind the path where one is given.
pub open spec fn label_of(args: Seq<LabelArgView>, function: Option<Seq<char>>) -> Result<
    Seq<char>,
    LabelError,
> {
    if exists|at: int| repeats(args, at) {
        let at = choose|at: int|
            repeats(args, at) && forall|m: int| 0 <= m < at ==> !repeats(args, m);
        if args[at] is Path {
            Err(LabelError::PathRepeated(at as usize))
        } else {
            Err(LabelError::NameRepeated(at as usize))
        }
    } else {
        match given_name(args) {
            Some(name) => Ok(joined(given_path(args), name)),
            None => match function {
                Some(name) => Ok(joined(given_path(args), name)),
                None => Err(LabelError::NameMissing),
            },
        }
    }
}

/// The path and the name found so far are those of the arguments read.
proof fn lemma_given_push(args: Seq<LabelArgView>, arg: LabelArgView)
    ensures
        given_path(args.push(arg)) == match given_path(args) {
            Some(path) => Some(path),
            None => match arg {
                LabelArgView::Path(path) => Some(path),
                LabelArgView::Name(_) => None,
            },
        },
        given_name(args.push(arg)) == match given_name(args) {
            Some(name) => Some(name),
            None => match arg {
                LabelArgView::Name(name) => Some(name),
                LabelArgView::Path(_) => None,
            },
        },
        given_path(args) is Some <==> exists|m: int|
            0 <= m < args.len() && (#[trigger] args[m]) is Path,
        given_name(args) is Some <==> exists|m: int|
            0 <= m < args.len() && (#[trigger] args[m]) is Name,
    decreases args.len(),
{
    let longer = args.push(arg);
    if args.len() == 0 {
        assert(longer.drop_first() =~= Seq::<LabelArgView>::empty());
        assert(given_path(Seq::<LabelArgView>::empty()) is None);
        assert(given_name(Seq::<LabelArgView>::empty()) is None);
    } else {
        let rest = args.drop_first();
        assert(longer.drop_first() =~= rest.push(arg));
        lemma_given_push(rest, arg);
        if args.first() is Path {
            assert(args[0] is Path);
        } else {
            assert(args[0] is Name);
        }
        if exists|m: int| 0 <= m < rest.len() && (#[trigger] rest[m]) is Path {
            let m = choose|m: int| 0 <= m < rest.len() && (#[trigger] rest[m]) is Path;
            assert(args[m + 1] is Path);
        }
        if exists|m: int| 0 <= m < rest.len() && (#[trigger] rest[m]) is Name {
            let m = choose|m: int| 0 <= m < rest.len() && (#[trigger] rest[m]) is Name;
            assert(args[m + 1] is Name);
        }
        if exists|m: int| 0 <= m < args.len() && (#[trigger] args[m]) is Path {
            let m = choose|m: int| 0 <= m < args.len() && (#[trigger] args[m]) is Path;
            if m > 0 {
                assert(rest[m - 1] is Path);
            }
        }
        if exists|m: int| 0 <= m < args.len() && (#[trigger] args[m]) is Name {
            let m = choose|m: int| 0 <= m < args.len() && (#[trigger] args[m]) is Name;
            if m > 0 {
                assert(rest[m - 1] is Name);
            }
        }
    }
}

/// Works out the label of an annotation from its arguments and from the
/// name of the instrumented function; `function` is `None` for a block.
pub fn resolve_label(args: &Vec<LabelArg>, function: Option<&str>) -> (result: Result<
    String,
    LabelError,
>)
    ensures
        match result {
            Ok(label) => label_of(
                args_view(args@),
                match function {
                    Some(f) => Some(f@),
                    None => None,
                },
            ) == Ok::<Seq<char>, LabelError>(label@),
            Err(e) => label_of(
                args_view(args@),
                match function {
                    Some(f) => Some(f@),
                    None => None,
                },
            ) == Err::<Seq<char>, LabelError>(e),
        },
{
    let ghost all = args_view(args@);
    let mut path: Option<&String> = None;
    let mut name: Option<&String> = None;
    let mut i: usize = 0;
    proof {
        assert(given_path(all.take(0)) is None);
        assert(given_name(all.take(0)) is None);
    }
    while i < args.len()
        invariant
            i <= args@.len(),
            all == args_view(args@),
            forall|m: int| 0 <= m < i ==> !repeats(all, m),
            match path {
                Some(p) => given_path(all.take(i as int)) == Some(p@),
                None => given_path(all.take(i as int)) is None,
            },
            match name {
                Some(n) => given_name(all.take(i as int)) == Some(n@),
                None => given_name(all.take(i as int)) is None,
            },
        decreases args@.len() - i,
    {
        let ghost read = all.take(i as int);
        proof {
            lemma_given_push(read, all[i as int]);
            assert(all.take(i + 1) =~= read.push(all[i as int]));
            assert(all[i as int] == args@[i as int]@);
            assert forall|m: int| 0 <= m < i implies read[m] == all[m] by {}
        }
        match &args[i] {
            LabelArg::Path(p) => {
                if path.is_some() {
                    proof {
                        let m = choose|m: int| 0 <= m < read.len() && (#[trigger] read[m]) is Path;
                        assert(all[m] is Path);
                        assert(repeats(all, i as int));
                        lemma_first_repeat(all, i as int);
                    }
                    return Err(LabelError::PathRepeated(i));
                }
                path = Some(p);
            },
            LabelArg::Name(n) => {
                if name.is_some() {
                    proof {
                        let m = choose|m: int| 0 <= m < read.len() && (#[trigger] read[m]) is Name;
                        assert(all[m] is Name);
                        assert(repeats(all, i as int));
                        lemma_first_repeat(all, i as int);
                    }
                    return Err(LabelError::NameRepeated(i));
                }
                name = Some(n);
            },
        }
        proof {
            if repeats(all, i as int) {
                let earlier = choose|earlier: int|
                    0 <= earlier < i && ((#[trigger] all[earlier]) is Path <==> all[i as int]
                        is Path);
                assert(read[earlier] == all[earlier]);
            }
        }
        i += 1;
    }
    proof {
        assert(all.take(i as int) =~= all);
        assert(!exists|at: int| repeats(all, at));
    }
    let name: &str = match name {
        Some(n) => n.as_str(),
        None => match function {
            Some(f) => f,
            None => {
                return Err(LabelError::NameMissing);
            },
        },
    };
    match path {
        Some(p) => {
            proof {
                reveal_strlit("::");
            }
            let mut label = p.clone();
            label.append("::");
            label.append(name);
            assert(label@ =~= p@ + seq![':', ':'] + name@);
            Ok(label)
        },
        None => Ok(name.to_owned()),
    }
}

/// The first argument that repeats is the one that the error names.
proof fn lemma_first_repeat(args: Seq<LabelArgView>, at: int)
    requires
        repeats(args, at),
        forall|m: int| 0 <= m < at ==> !repeats(args, m),
    ensures
        exists|any: int| repeats(args, any),
        (choose|first: int|
            repeats(args, first) && forall|m: int| 0 <= m < first ==> !repeats(args, m)) == at,
{
    let first = choose|first: int|
        repeats(args, first) && forall|m: int| 0 <= m < first ==> !repeats(args, m);
    assert(repeats(args, at) && forall|m: int| 0 <= m < at ==> !repeats(args, m));
    if first < at {
        assert(!repeats(args, first));
    } else if at < first {
        assert(!repeats(args, at));
    }
}

} // verus!
