use vstd::prelude::*;

use crate::text::push_str;

verus! {

/// Clipboard programs tried in order, with their arguments.
pub open spec fn candidate_program(i: int) -> Seq<char> {
    if i == 0 {
        "pbcopy"@
    } else if i == 1 {
        "wl-copy"@
    } else if i == 2 {
        "xclip"@
    } else {
        "xsel"@
    }
}

pub open spec fn candidate_args(i: int) -> Seq<Seq<char>> {
    if i == 0 || i == 1 {
        seq![]
    } else if i == 2 {
        seq!["-selection"@, "clipboard"@]
    } else {
        seq!["--clipboard"@, "--input"@]
    }
}

pub open spec fn arg_views(a: Seq<&str>) -> Seq<Seq<char>> {
    a.map_values(|s: &str| s@)
}

/// The programs that can write to the system clipboard, in the order they are tried.
pub fn clipboard_commands() -> (r: Vec<(&'static str, Vec<&'static str>)>)
    ensures
        r@.len() == 4,
        forall|i: int|
            0 <= i < 4 ==> (#[trigger] r@[i]).0@ == candidate_program(i) && arg_views(r@[i].1@)
                == candidate_args(i),
{
    let mut out: Vec<(&'static str, Vec<&'static str>)> = Vec::new();
    out.push(("pbcopy", Vec::new()));
    out.push(("wl-copy", Vec::new()));
    let mut a: Vec<&'static str> = Vec::new();
    a.push("-selection");
    a.push("clipboard");
    out.push(("xclip", a));
    let mut b: Vec<&'static str> = Vec::new();
    b.push("--clipboard");
    b.push("--input");
    out.push(("xsel", b));
    proof {
        reveal_strlit("pbcopy");
        reveal_strlit("wl-copy");
        reveal_strlit("xclip");
        reveal_strlit("xsel");
        assert(arg_views(out@[0].1@) =~= candidate_args(0));
        assert(arg_views(out@[1].1@) =~= candidate_args(1));
        assert(arg_views(out@[2].1@) =~= candidate_args(2));
        assert(arg_views(out@[3].1@) =~= candidate_args(3));
    }
    out
}

/// `write_to` reported success for candidate `i`.
pub open spec fn succeeded<F: Fn(&str, &Vec<&'static str>, &str) -> Result<(), String>>(
    write_to: F,
    cmds: Seq<(&'static str, Vec<&'static str>)>,
    i: int,
    text: &str,
) -> bool {
    exists|res: Result<(), String>|
        res is Ok && #[trigger] call_ensures(write_to, (cmds[i].0, &cmds[i].1, text), res)
}

/// `write_to` reported failure `reason` for candidate `i`.
pub open spec fn failed_with<F: Fn(&str, &Vec<&'static str>, &str) -> Result<(), String>>(
    write_to: F,
    cmds: Seq<(&'static str, Vec<&'static str>)>,
    i: int,
    text: &str,
    reason: String,
) -> bool {
    call_ensures(write_to, (cmds[i].0, &cmds[i].1, text), Err(reason))
}

/// `write_to` reported some failure for candidate `i`.
pub open spec fn failed<F: Fn(&str, &Vec<&'static str>, &str) -> Result<(), String>>(
    write_to: F,
    cmds: Seq<(&'static str, Vec<&'static str>)>,
    i: int,
    text: &str,
) -> bool {
    exists|reason: String| #[trigger] failed_with(write_to, cmds, i, text, reason)
}

/// `cmds` are the clipboard programs with their arguments, in the order they are tried.
pub open spec fn are_candidates(cmds: Seq<(&'static str, Vec<&'static str>)>) -> bool {
    &&& cmds.len() == 4
    &&& forall|j: int|
        0 <= j < 4 ==> (#[trigger] cmds[j]).0@ == candidate_program(j) && arg_views(cmds[j].1@)
            == candidate_args(j)
}

/// Copies `text` to the system clipboard: tries each program of `clipboard_commands`
/// in turn through `write_to` (which runs it and feeds it the text) until one succeeds.
/// When all fail, the error names the last program and why it failed.
pub fn copy<F: Fn(&str, &Vec<&'static str>, &str) -> Result<(), String>>(text: &str, write_to: F) -> (r:
    Result<(), String>)
    requires
        forall|p: &str, a: &Vec<&'static str>, t: &str| call_requires(write_to, (p, a, t)),
    ensures
        exists|cmds: Seq<(&'static str, Vec<&'static str>)>|
            #[trigger] are_candidates(cmds) && match r {
                Ok(_) => exists|i: int|
                    0 <= i < 4 && #[trigger] succeeded(write_to, cmds, i, text) && forall|j: int|
                        0 <= j < i ==> #[trigger] failed(write_to, cmds, j, text),
                Err(e) => (forall|j: int| 0 <= j < 4 ==> #[trigger] failed(write_to, cmds, j, text))
                    && exists|reason: String|
                    #[trigger] failed_with(write_to, cmds, 3, text, reason) && e@ == candidate_program(
                        3,
                    ) + ": "@ + reason@,
            },
{
    let cmds = clipboard_commands();
    let ghost cs = cmds@;
    assert(are_candidates(cs));
    let mut last_error: Option<String> = None;
    let mut i: usize = 0;
    while i < cmds.len()
        invariant
            i <= cmds.len(),
            cmds@ == cs,
            are_candidates(cs),
            forall|p: &str, a: &Vec<&'static str>, t: &str| call_requires(write_to, (p, a, t)),
            forall|j: int| 0 <= j < i ==> #[trigger] failed(write_to, cs, j, text),
            i == 0 <==> last_error is None,
            last_error matches Some(e) ==> exists|reason: String|
                #[trigger] failed_with(write_to, cs, i - 1, text, reason) && e@ == cs[i - 1].0@
                    + ": "@ + reason@,
        decreases cmds.len() - i,
    {
        let program = cmds[i].0;
        let args = &cmds[i].1;
        let res = write_to(program, args, text);
        assert(call_ensures(write_to, (program, args, text), res));
        assert(program == cs[i as int].0);
        assert(*args == cs[i as int].1);
        match res {
            Ok(_) => {
                assert(call_ensures(write_to, (cs[i as int].0, &cs[i as int].1, text), res));
                assert(succeeded(write_to, cs, i as int, text));
                return Ok(());
            },
            Err(reason) => {
                let ghost why = reason;
                let mut msg = String::new();
                push_str(&mut msg, program);
                push_str(&mut msg, ": ");
                push_str(&mut msg, reason.as_str());
                proof {
                    reveal_strlit(": ");
                    assert(failed_with(write_to, cs, i as int, text, reason));
                    assert(msg@ == cs[i as int].0@ + ": "@ + reason@);
                }
                last_error = Some(msg);
                i = i + 1;
                assert(failed_with(write_to, cs, i - 1, text, why));
                assert(failed(write_to, cs, i - 1, text));
                continue;
            },
        }
    }
    proof {
        if last_error is Some {
            let why = choose|reason: String|
                #[trigger] failed_with(write_to, cs, i - 1, text, reason) && last_error->0@
                    == cs[i - 1].0@ + ": "@ + reason@;
            assert(i == 4);
            assert(failed_with(write_to, cs, 3, text, why));
        }
    }
    match last_error {
        Some(e) => Err(e),
        None => Err(String::from_str("클립보드 명령을 찾을 수 없어요 (pbcopy/wl-copy/xclip/xsel)")),
    }
}

} // verus!
