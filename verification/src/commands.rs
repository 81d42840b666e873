//! The sub-commands: reading the command line, and what `check`, `delete`,
//! `rename`, `port` and `where` decide, as reports with their exit codes
//! (0 done or not in use, 1 in use and refused, 2 missing or another error).
use vstd::prelude::*;
use crate::numfmt::{parse_u16, parse_u16_spec, chars_of};
use crate::platform::{
    says_by_port, says_in_path, says_in_use, says_locking, Platform, PortBinding, ProcessInfo,
};
use crate::paths::{
    lemma_resolve_concat, lemma_split_concat, lemma_split_nonempty, location, path_location,
    resolve_pieces, same_pieces, slashed, split_at_char, step_piece,
};
use crate::text::{
    ascii_lower, ascii_upper, copy_string, lowercase, owned, str_eq, to_lowercase,
};

verus! {

// ─── the command line ───────────────────────────────────

/// A sub-command and its arguments.
pub enum Command {
    /// `-h` or `--help`: print the usage and exit with 0.
    Help,
    /// Too few arguments or an unknown command: print the usage and exit with 1.
    Usage,
    /// `rename`/`move` without a destination: print its usage and exit with 1.
    RenameUsage,
    Check { path: String },
    Delete { path: String },
    Ps { name: String },
    Kill { target: String },
    Port { port: String },
    Where { name: String },
    Rename { src: String, dst: String },
}

/// What the command line asks for. The command is the first argument, in English or
/// Chinese (`check`/`检查`, `delete`/`删除`, `ps`/`进程`, `kill`/`结束`, `port`/`端口`,
/// `where`/`查找`/`which`, `rename`/`重命名`/`move`/`移动`), its operand the second;
/// `rename` also takes a destination.
pub open spec fn command_matches(args: Seq<Seq<char>>, r: Command) -> bool {
    if args.len() == 2 && (args[1] == "-h"@ || args[1] == "--help"@) {
        r is Help
    } else if args.len() < 3 {
        r is Usage
    } else {
        let c = args[1];
        let p = args[2];
        if c == "check"@ || c == "检查"@ {
            r matches Command::Check { path } && path@ == p
        } else if c == "delete"@ || c == "删除"@ {
            r matches Command::Delete { path } && path@ == p
        } else if c == "ps"@ || c == "进程"@ {
            r matches Command::Ps { name } && name@ == p
        } else if c == "kill"@ || c == "结束"@ {
            r matches Command::Kill { target } && target@ == p
        } else if c == "port"@ || c == "端口"@ {
            r matches Command::Port { port } && port@ == p
        } else if c == "where"@ || c == "查找"@ || c == "which"@ {
            r matches Command::Where { name } && name@ == p
        } else if c == "rename"@ || c == "重命名"@ || c == "move"@ || c == "移动"@ {
            if args.len() < 4 {
                r is RenameUsage
            } else {
                r matches Command::Rename { src, dst } && src@ == p && dst@ == args[3]
            }
        } else {
            r is Usage
        }
    }
}

proof fn lemma_reads_0(prog: Seq<char>, p: Seq<char>, r: Command)
    ensures
        command_matches(seq![prog, "check"@, p], r) ==> (r matches Command::Check { path } && path@ == p),
{
    reveal_strlit("check");
    let args = seq![prog, "check"@, p];
    assert(args.len() == 3 && args[1] == "check"@ && args[2] == p);
}

proof fn lemma_reads_1(prog: Seq<char>, p: Seq<char>, r: Command)
    ensures
        command_matches(seq![prog, "检查"@, p], r) ==> (r matches Command::Check { path } && path@ == p),
{
    reveal_strlit("检查");
    reveal_strlit("check");
    assert("检查"@.len() != "check"@.len());
    let args = seq![prog, "检查"@, p];
    assert(args.len() == 3 && args[1] == "检查"@ && args[2] == p);
}

proof fn lemma_reads_2(prog: Seq<char>, p: Seq<char>, r: Command)
    ensures
        command_matches(seq![prog, "delete"@, p], r) ==> (r matches Command::Delete { path } && path@ == p),
{
    reveal_strlit("delete");
    reveal_strlit("check");
    assert("delete"@.len() != "check"@.len());
    reveal_strlit("检查");
    assert("delete"@.len() != "检查"@.len());
    let args = seq![prog, "delete"@, p];
    assert(args.len() == 3 && args[1] == "delete"@ && args[2] == p);
}

proof fn lemma_reads_3(prog: Seq<char>, p: Seq<char>, r: Command)
    ensures
        command_matches(seq![prog, "删除"@, p], r) ==> (r matches Command::Delete { path } && path@ == p),
{
    reveal_strlit("删除");
    reveal_strlit("check");
    assert("删除"@.len() != "check"@.len());
    reveal_strlit("检查");
    assert("删除"@[0] != "检查"@[0]);
    reveal_strlit("delete");
    assert("删除"@.len() != "delete"@.len());
    let args = seq![prog, "删除"@, p];
    assert(args.len() == 3 && args[1] == "删除"@ && args[2] == p);
}

proof fn lemma_reads_4(prog: Seq<char>, p: Seq<char>, r: Command)
    ensures
        command_matches(seq![prog, "ps"@, p], r) ==> (r matches Command::Ps { name } && name@ == p),
{
    reveal_strlit("ps");
    reveal_strlit("check");
    assert("ps"@.len() != "check"@.len());
    reveal_strlit("检查");
    assert("ps"@[0] != "检查"@[0]);
    reveal_strlit("delete");
    assert("ps"@.len() != "delete"@.len());
    reveal_strlit("删除");
    assert("ps"@[0] != "删除"@[0]);
    let args = seq![prog, "ps"@, p];
    assert(args.len() == 3 && args[1] == "ps"@ && args[2] == p);
}

proof fn lemma_reads_5(prog: Seq<char>, p: Seq<char>, r: Command)
    ensures
        command_matches(seq![prog, "进程"@, p], r) ==> (r matches Command::Ps { name } && name@ == p),
{
    reveal_strlit("进程");
    reveal_strlit("check");
    assert("进程"@.len() != "check"@.len());
    reveal_strlit("检查");
    assert("进程"@[0] != "检查"@[0]);
    reveal_strlit("delete");
    assert("进程"@.len() != "delete"@.len());
    reveal_strlit("删除");
    assert("进程"@[0] != "删除"@[0]);
    reveal_strlit("ps");
    assert("进程"@[0] != "ps"@[0]);
    let args = seq![prog, "进程"@, p];
    assert(args.len() == 3 && args[1] == "进程"@ && args[2] == p);
}

proof fn lemma_reads_6(prog: Seq<char>, p: Seq<char>, r: Command)
    ensures
        command_matches(seq![prog, "kill"@, p], r) ==> (r matches Command::Kill { target } && target@ == p),
{
    reveal_strlit("kill");
    reveal_strlit("check");
    assert("kill"@.len() != "check"@.len());
    reveal_strlit("检查");
    assert("kill"@.len() != "检查"@.len());
    reveal_strlit("delete");
    assert("kill"@.len() != "delete"@.len());
    reveal_strlit("删除");
    assert("kill"@.len() != "删除"@.len());
    reveal_strlit("ps");
    assert("kill"@.len() != "ps"@.len());
    reveal_strlit("进程");
    assert("kill"@.len() != "进程"@.len());
    let args = seq![prog, "kill"@, p];
    assert(args.len() == 3 && args[1] == "kill"@ && args[2] == p);
}

proof fn lemma_reads_7(prog: Seq<char>, p: Seq<char>, r: Command)
    ensures
        command_matches(seq![prog, "结束"@, p], r) ==> (r matches Command::Kill { target } && target@ == p),
{
    reveal_strlit("结束");
    reveal_strlit("check");
    assert("结束"@.len() != "check"@.len());
    reveal_strlit("检查");
    assert("结束"@[0] != "检查"@[0]);
    reveal_strlit("delete");
    assert("结束"@.len() != "delete"@.len());
    reveal_strlit("删除");
    assert("结束"@[0] != "删除"@[0]);
    reveal_strlit("ps");
    assert("结束"@[0] != "ps"@[0]);
    reveal_strlit("进程");
    assert("结束"@[0] != "进程"@[0]);
    reveal_strlit("kill");
    assert("结束"@.len() != "kill"@.len());
    let args = seq![prog, "结束"@, p];
    assert(args.len() == 3 && args[1] == "结束"@ && args[2] == p);
}

proof fn lemma_reads_8(prog: Seq<char>, p: Seq<char>, r: Command)
    ensures
        command_matches(seq![prog, "port"@, p], r) ==> (r matches Command::Port { port } && port@ == p),
{
    reveal_strlit("port");
    reveal_strlit("check");
    assert("port"@.len() != "check"@.len());
    reveal_strlit("检查");
    assert("port"@.len() != "检查"@.len());
    reveal_strlit("delete");
    assert("port"@.len() != "delete"@.len());
    reveal_strlit("删除");
    assert("port"@.len() != "删除"@.len());
    reveal_strlit("ps");
    assert("port"@.len() != "ps"@.len());
    reveal_strlit("进程");
    assert("port"@.len() != "进程"@.len());
    reveal_strlit("kill");
    assert("port"@[0] != "kill"@[0]);
    reveal_strlit("结束");
    assert("port"@.len() != "结束"@.len());
    let args = seq![prog, "port"@, p];
    assert(args.len() == 3 && args[1] == "port"@ && args[2] == p);
}

proof fn lemma_reads_9(prog: Seq<char>, p: Seq<char>, r: Command)
    ensures
        command_matches(seq![prog, "端口"@, p], r) ==> (r matches Command::Port { port } && port@ == p),
{
    reveal_strlit("端口");
    reveal_strlit("check");
    assert("端口"@.len() != "check"@.len());
    reveal_strlit("检查");
    assert("端口"@[0] != "检查"@[0]);
    reveal_strlit("delete");
    assert("端口"@.len() != "delete"@.len());
    reveal_strlit("删除");
    assert("端口"@[0] != "删除"@[0]);
    reveal_strlit("ps");
    assert("端口"@[0] != "ps"@[0]);
    reveal_strlit("进程");
    assert("端口"@[0] != "进程"@[0]);
    reveal_strlit("kill");
    assert("端口"@.len() != "kill"@.len());
    reveal_strlit("结束");
    assert("端口"@[0] != "结束"@[0]);
    reveal_strlit("port");
    assert("端口"@.len() != "port"@.len());
    let args = seq![prog, "端口"@, p];
    assert(args.len() == 3 && args[1] == "端口"@ && args[2] == p);
}

proof fn lemma_reads_10(prog: Seq<char>, p: Seq<char>, r: Command)
    ensures
        command_matches(seq![prog, "where"@, p], r) ==> (r matches Command::Where { name } && name@ == p),
{
    reveal_strlit("where");
    reveal_strlit("check");
    assert("where"@[0] != "check"@[0]);
    reveal_strlit("检查");
    assert("where"@.len() != "检查"@.len());
    reveal_strlit("delete");
    assert("where"@.len() != "delete"@.len());
    reveal_strlit("删除");
    assert("where"@.len() != "删除"@.len());
    reveal_strlit("ps");
    assert("where"@.len() != "ps"@.len());
    reveal_strlit("进程");
    assert("where"@.len() != "进程"@.len());
    reveal_strlit("kill");
    assert("where"@.len() != "kill"@.len());
    reveal_strlit("结束");
    assert("where"@.len() != "结束"@.len());
    reveal_strlit("port");
    assert("where"@.len() != "port"@.len());
    reveal_strlit("端口");
    assert("where"@.len() != "端口"@.len());
    let args = seq![prog, "where"@, p];
    assert(args.len() == 3 && args[1] == "where"@ && args[2] == p);
}

proof fn lemma_reads_11(prog: Seq<char>, p: Seq<char>, r: Command)
    ensures
        command_matches(seq![prog, "查找"@, p], r) ==> (r matches Command::Where { name } && name@ == p),
{
    reveal_strlit("查找");
    reveal_strlit("check");
    assert("查找"@.len() != "check"@.len());
    reveal_strlit("检查");
    assert("查找"@[0] != "检查"@[0]);
    reveal_strlit("delete");
    assert("查找"@.len() != "delete"@.len());
    reveal_strlit("删除");
    assert("查找"@[0] != "删除"@[0]);
    reveal_strlit("ps");
    assert("查找"@[0] != "ps"@[0]);
    reveal_strlit("进程");
    assert("查找"@[0] != "进程"@[0]);
    reveal_strlit("kill");
    assert("查找"@.len() != "kill"@.len());
    reveal_strlit("结束");
    assert("查找"@[0] != "结束"@[0]);
    reveal_strlit("port");
    assert("查找"@.len() != "port"@.len());
    reveal_strlit("端口");
    assert("查找"@[0] != "端口"@[0]);
    reveal_strlit("where");
    assert("查找"@.len() != "where"@.len());
    let args = seq![prog, "查找"@, p];
    assert(args.len() == 3 && args[1] == "查找"@ && args[2] == p);
}

proof fn lemma_reads_12(prog: Seq<char>, p: Seq<char>, r: Command)
    ensures
        command_matches(seq![prog, "which"@, p], r) ==> (r matches Command::Where { name } && name@ == p),
{
    reveal_strlit("which");
    reveal_strlit("check");
    assert("which"@[0] != "check"@[0]);
    reveal_strlit("检查");
    assert("which"@.len() != "检查"@.len());
    reveal_strlit("delete");
    assert("which"@.len() != "delete"@.len());
    reveal_strlit("删除");
    assert("which"@.len() != "删除"@.len());
    reveal_strlit("ps");
    assert("which"@.len() != "ps"@.len());
    reveal_strlit("进程");
    assert("which"@.len() != "进程"@.len());
    reveal_strlit("kill");
    assert("which"@.len() != "kill"@.len());
    reveal_strlit("结束");
    assert("which"@.len() != "结束"@.len());
    reveal_strlit("port");
    assert("which"@.len() != "port"@.len());
    reveal_strlit("端口");
    assert("which"@.len() != "端口"@.len());
    reveal_strlit("where");
    assert("which"@[2] != "where"@[2]);
    reveal_strlit("查找");
    assert("which"@.len() != "查找"@.len());
    let args = seq![prog, "which"@, p];
    assert(args.len() == 3 && args[1] == "which"@ && args[2] == p);
}

proof fn lemma_reads_rename_0(prog: Seq<char>, p: Seq<char>, q: Seq<char>, r: Command)
    ensures
        command_matches(seq![prog, "rename"@, p, q], r) ==> (r matches Command::Rename { src, dst } && src@ == p && dst@ == q),
        command_matches(seq![prog, "rename"@, p], r) ==> r is RenameUsage,
{
    reveal_strlit("rename");
    reveal_strlit("check");
    assert("rename"@.len() != "check"@.len());
    reveal_strlit("检查");
    assert("rename"@.len() != "检查"@.len());
    reveal_strlit("delete");
    assert("rename"@[0] != "delete"@[0]);
    reveal_strlit("删除");
    assert("rename"@.len() != "删除"@.len());
    reveal_strlit("ps");
    assert("rename"@.len() != "ps"@.len());
    reveal_strlit("进程");
    assert("rename"@.len() != "进程"@.len());
    reveal_strlit("kill");
    assert("rename"@.len() != "kill"@.len());
    reveal_strlit("结束");
    assert("rename"@.len() != "结束"@.len());
    reveal_strlit("port");
    assert("rename"@.len() != "port"@.len());
    reveal_strlit("端口");
    assert("rename"@.len() != "端口"@.len());
    reveal_strlit("where");
    assert("rename"@.len() != "where"@.len());
    reveal_strlit("查找");
    assert("rename"@.len() != "查找"@.len());
    reveal_strlit("which");
    assert("rename"@.len() != "which"@.len());
    let args = seq![prog, "rename"@, p, q];
    assert(args.len() == 4 && args[1] == "rename"@ && args[2] == p && args[3] == q);
    let args3 = seq![prog, "rename"@, p];
    assert(args3.len() == 3 && args3[1] == "rename"@ && args3[2] == p);
}

proof fn lemma_reads_rename_1(prog: Seq<char>, p: Seq<char>, q: Seq<char>, r: Command)
    ensures
        command_matches(seq![prog, "重命名"@, p, q], r) ==> (r matches Command::Rename { src, dst } && src@ == p && dst@ == q),
        command_matches(seq![prog, "重命名"@, p], r) ==> r is RenameUsage,
{
    reveal_strlit("重命名");
    reveal_strlit("check");
    assert("重命名"@.len() != "check"@.len());
    reveal_strlit("检查");
    assert("重命名"@.len() != "检查"@.len());
    reveal_strlit("delete");
    assert("重命名"@.len() != "delete"@.len());
    reveal_strlit("删除");
    assert("重命名"@.len() != "删除"@.len());
    reveal_strlit("ps");
    assert("重命名"@.len() != "ps"@.len());
    reveal_strlit("进程");
    assert("重命名"@.len() != "进程"@.len());
    reveal_strlit("kill");
    assert("重命名"@.len() != "kill"@.len());
    reveal_strlit("结束");
    assert("重命名"@.len() != "结束"@.len());
    reveal_strlit("port");
    assert("重命名"@.len() != "port"@.len());
    reveal_strlit("端口");
    assert("重命名"@.len() != "端口"@.len());
    reveal_strlit("where");
    assert("重命名"@.len() != "where"@.len());
    reveal_strlit("查找");
    assert("重命名"@.len() != "查找"@.len());
    reveal_strlit("which");
    assert("重命名"@.len() != "which"@.len());
    reveal_strlit("rename");
    assert("重命名"@.len() != "rename"@.len());
    let args = seq![prog, "重命名"@, p, q];
    assert(args.len() == 4 && args[1] == "重命名"@ && args[2] == p && args[3] == q);
    let args3 = seq![prog, "重命名"@, p];
    assert(args3.len() == 3 && args3[1] == "重命名"@ && args3[2] == p);
}

proof fn lemma_reads_rename_2(prog: Seq<char>, p: Seq<char>, q: Seq<char>, r: Command)
    ensures
        command_matches(seq![prog, "move"@, p, q], r) ==> (r matches Command::Rename { src, dst } && src@ == p && dst@ == q),
        command_matches(seq![prog, "move"@, p], r) ==> r is RenameUsage,
{
    reveal_strlit("move");
    reveal_strlit("check");
    assert("move"@.len() != "check"@.len());
    reveal_strlit("检查");
    assert("move"@.len() != "检查"@.len());
    reveal_strlit("delete");
    assert("move"@.len() != "delete"@.len());
    reveal_strlit("删除");
    assert("move"@.len() != "删除"@.len());
    reveal_strlit("ps");
    assert("move"@.len() != "ps"@.len());
    reveal_strlit("进程");
    assert("move"@.len() != "进程"@.len());
    reveal_strlit("kill");
    assert("move"@[0] != "kill"@[0]);
    reveal_strlit("结束");
    assert("move"@.len() != "结束"@.len());
    reveal_strlit("port");
    assert("move"@[0] != "port"@[0]);
    reveal_strlit("端口");
    assert("move"@.len() != "端口"@.len());
    reveal_strlit("where");
    assert("move"@.len() != "where"@.len());
    reveal_strlit("查找");
    assert("move"@.len() != "查找"@.len());
    reveal_strlit("which");
    assert("move"@.len() != "which"@.len());
    reveal_strlit("rename");
    assert("move"@.len() != "rename"@.len());
    reveal_strlit("重命名");
    assert("move"@.len() != "重命名"@.len());
    let args = seq![prog, "move"@, p, q];
    assert(args.len() == 4 && args[1] == "move"@ && args[2] == p && args[3] == q);
    let args3 = seq![prog, "move"@, p];
    assert(args3.len() == 3 && args3[1] == "move"@ && args3[2] == p);
}

proof fn lemma_reads_rename_3(prog: Seq<char>, p: Seq<char>, q: Seq<char>, r: Command)
    ensures
        command_matches(seq![prog, "移动"@, p, q], r) ==> (r matches Command::Rename { src, dst } && src@ == p && dst@ == q),
        command_matches(seq![prog, "移动"@, p], r) ==> r is RenameUsage,
{
    reveal_strlit("移动");
    reveal_strlit("check");
    assert("移动"@.len() != "check"@.len());
    reveal_strlit("检查");
    assert("移动"@[0] != "检查"@[0]);
    reveal_strlit("delete");
    assert("移动"@.len() != "delete"@.len());
    reveal_strlit("删除");
    assert("移动"@[0] != "删除"@[0]);
    reveal_strlit("ps");
    assert("移动"@[0] != "ps"@[0]);
    reveal_strlit("进程");
    assert("移动"@[0] != "进程"@[0]);
    reveal_strlit("kill");
    assert("移动"@.len() != "kill"@.len());
    reveal_strlit("结束");
    assert("移动"@[0] != "结束"@[0]);
    reveal_strlit("port");
    assert("移动"@.len() != "port"@.len());
    reveal_strlit("端口");
    assert("移动"@[0] != "端口"@[0]);
    reveal_strlit("where");
    assert("移动"@.len() != "where"@.len());
    reveal_strlit("查找");
    assert("移动"@[0] != "查找"@[0]);
    reveal_strlit("which");
    assert("移动"@.len() != "which"@.len());
    reveal_strlit("rename");
    assert("移动"@.len() != "rename"@.len());
    reveal_strlit("重命名");
    assert("移动"@.len() != "重命名"@.len());
    reveal_strlit("move");
    assert("移动"@.len() != "move"@.len());
    let args = seq![prog, "移动"@, p, q];
    assert(args.len() == 4 && args[1] == "移动"@ && args[2] == p && args[3] == q);
    let args3 = seq![prog, "移动"@, p];
    assert(args3.len() == 3 && args3[1] == "移动"@ && args3[2] == p);
}

/// Each sub-command is read by its English name and by its Chinese alias alike, its
/// operands taken in order: `check`/`检查`, `delete`/`删除`, `ps`/`进程`, `kill`/`结束`,
/// `port`/`端口`, `where`/`查找`/`which`, and `rename`/`重命名`/`move`/`移动` with a
/// destination (without one, its usage); `-h` and `--help` alone ask for help, and too
/// few arguments for the usage.
pub proof fn lemma_command_names(prog: Seq<char>, p: Seq<char>, q: Seq<char>, r: Command)
    ensures
        command_matches(seq![prog, "check"@, p], r) ==> (r matches Command::Check { path } && path@ == p),
        command_matches(seq![prog, "检查"@, p], r) ==> (r matches Command::Check { path } && path@ == p),
        command_matches(seq![prog, "delete"@, p], r) ==> (r matches Command::Delete { path } && path@ == p),
        command_matches(seq![prog, "删除"@, p], r) ==> (r matches Command::Delete { path } && path@ == p),
        command_matches(seq![prog, "ps"@, p], r) ==> (r matches Command::Ps { name } && name@ == p),
        command_matches(seq![prog, "进程"@, p], r) ==> (r matches Command::Ps { name } && name@ == p),
        command_matches(seq![prog, "kill"@, p], r) ==> (r matches Command::Kill { target } && target@ == p),
        command_matches(seq![prog, "结束"@, p], r) ==> (r matches Command::Kill { target } && target@ == p),
        command_matches(seq![prog, "port"@, p], r) ==> (r matches Command::Port { port } && port@ == p),
        command_matches(seq![prog, "端口"@, p], r) ==> (r matches Command::Port { port } && port@ == p),
        command_matches(seq![prog, "where"@, p], r) ==> (r matches Command::Where { name } && name@ == p),
        command_matches(seq![prog, "查找"@, p], r) ==> (r matches Command::Where { name } && name@ == p),
        command_matches(seq![prog, "which"@, p], r) ==> (r matches Command::Where { name } && name@ == p),
        command_matches(seq![prog, "rename"@, p, q], r) ==> (r matches Command::Rename { src, dst } && src@ == p && dst@ == q),
        command_matches(seq![prog, "rename"@, p], r) ==> r is RenameUsage,
        command_matches(seq![prog, "重命名"@, p, q], r) ==> (r matches Command::Rename { src, dst } && src@ == p && dst@ == q),
        command_matches(seq![prog, "重命名"@, p], r) ==> r is RenameUsage,
        command_matches(seq![prog, "move"@, p, q], r) ==> (r matches Command::Rename { src, dst } && src@ == p && dst@ == q),
        command_matches(seq![prog, "move"@, p], r) ==> r is RenameUsage,
        command_matches(seq![prog, "移动"@, p, q], r) ==> (r matches Command::Rename { src, dst } && src@ == p && dst@ == q),
        command_matches(seq![prog, "移动"@, p], r) ==> r is RenameUsage,
        command_matches(seq![prog, "-h"@], r) ==> r is Help,
        command_matches(seq![prog, "--help"@], r) ==> r is Help,
        command_matches(seq![prog], r) ==> r is Usage,
        command_matches(seq![prog, p], r) && p != "-h"@ && p != "--help"@ ==> r is Usage,
{
    lemma_reads_0(prog, p, r);
    lemma_reads_1(prog, p, r);
    lemma_reads_2(prog, p, r);
    lemma_reads_3(prog, p, r);
    lemma_reads_4(prog, p, r);
    lemma_reads_5(prog, p, r);
    lemma_reads_6(prog, p, r);
    lemma_reads_7(prog, p, r);
    lemma_reads_8(prog, p, r);
    lemma_reads_9(prog, p, r);
    lemma_reads_10(prog, p, r);
    lemma_reads_11(prog, p, r);
    lemma_reads_12(prog, p, r);
    lemma_reads_rename_0(prog, p, q, r);
    lemma_reads_rename_1(prog, p, q, r);
    lemma_reads_rename_2(prog, p, q, r);
    lemma_reads_rename_3(prog, p, q, r);
    let one = seq![prog];
    assert(one.len() == 1);
    let two = seq![prog, p];
    assert(two.len() == 2 && two[1] == p);
    let h = seq![prog, "-h"@];
    assert(h.len() == 2 && h[1] == "-h"@);
    let hh = seq![prog, "--help"@];
    assert(hh.len() == 2 && hh[1] == "--help"@);
}

/// Reads the command line (the program name first).
pub fn parse_command(args: &Vec<String>) -> (r: Command)
    ensures
        command_matches(crate::text::views(args@), r),
{
    let ghost a = crate::text::views(args@);
    assert(a.len() == args@.len());
    if args.len() == 2 {
        assert(a[1] == args@[1]@);
        if str_eq(args[1].as_str(), "-h") || str_eq(args[1].as_str(), "--help") {
            return Command::Help;
        }
    }
    if args.len() < 3 {
        return Command::Usage;
    }
    assert(a[1] == args@[1]@ && a[2] == args@[2]@);
    let c = args[1].as_str();
    let p = copy_string(&args[2]);
    if str_eq(c, "check") || str_eq(c, "检查") {
        Command::Check { path: p }
    } else if str_eq(c, "delete") || str_eq(c, "删除") {
        Command::Delete { path: p }
    } else if str_eq(c, "ps") || str_eq(c, "进程") {
        Command::Ps { name: p }
    } else if str_eq(c, "kill") || str_eq(c, "结束") {
        Command::Kill { target: p }
    } else if str_eq(c, "port") || str_eq(c, "端口") {
        Command::Port { port: p }
    } else if str_eq(c, "where") || str_eq(c, "查找") || str_eq(c, "which") {
        Command::Where { name: p }
    } else if str_eq(c, "rename") || str_eq(c, "重命名") || str_eq(c, "move") || str_eq(c, "移动") {
        if args.len() < 4 {
            Command::RenameUsage
        } else {
            assert(a[3] == args@[3]@);
            Command::Rename { src: p, dst: copy_string(&args[3]) }
        }
    } else {
        Command::Usage
    }
}

// ─── check ──────────────────────────────────────────────

/// What `check` found.
pub enum CheckReport {
    /// The path is in use (exit code 1); the locking processes, or why they are unknown.
    InUse { path: String, locking: Result<Vec<ProcessInfo>, String> },
    /// The path is free (exit code 0).
    Free { path: String },
    /// The check failed (exit code 2).
    Unknown { error: String },
}

impl CheckReport {
    /// 1 in use, 0 free, 2 unknown.
    pub fn exit_code(&self) -> (c: i32)
        ensures
            self is InUse ==> c == 1,
            self is Free ==> c == 0,
            self is Unknown ==> c == 2,
    {
        match self {
            CheckReport::InUse { .. } => 1,
            CheckReport::Free { .. } => 0,
            CheckReport::Unknown { .. } => 2,
        }
    }
}

/// What `check` reports from the platform's answers: `in_use`, whether the path is
/// held, and `locking`, the processes holding it (asked only when it is held).
pub fn check_report(path: &str, in_use: Result<bool, String>, locking: Result<
    Vec<ProcessInfo>,
    String,
>) -> (r: CheckReport)
    ensures
        match in_use {
            Ok(true) => r matches CheckReport::InUse { path: p, locking: l } && p@ == path@ && l
                == locking,
            Ok(false) => r matches CheckReport::Free { path: p } && p@ == path@,
            Err(e) => r matches CheckReport::Unknown { error } && error == e,
        },
{
    match in_use {
        Ok(true) => CheckReport::InUse { path: owned(path), locking },
        Ok(false) => CheckReport::Free { path: owned(path) },
        Err(e) => CheckReport::Unknown { error: e },
    }
}

/// 检查文件是否被占用, and when it is, which processes hold it (see `check_report`).
pub fn cmd_check<P: Platform>(platform: &P, path: &str) -> (r: CheckReport)
    ensures
        match r {
            CheckReport::InUse { path: p, .. } => p@ == path@,
            CheckReport::Free { path: p } => p@ == path@,
            CheckReport::Unknown { .. } => true,
        },
        check_answered(platform, path, r),
{
    let answer = platform.check_file_in_use(path);
    let ghost a = answer;
    assert(says_in_use(platform, path, a));
    match answer {
        Ok(true) => {
            let locking = platform.find_locking_processes(path);
            let ghost l = locking;
            let r = check_report(path, Ok(true), locking);
            assert(says_locking(platform, path, l));
            assert(a == Ok::<bool, String>(true));
            r
        },
        other => check_report(path, other, Ok(Vec::new())),
    }
}

/// What `check` reports follows an answer the platform gave for the path: in use,
/// with the locking processes the platform then gave, when it answered `Ok(true)`;
/// free when it answered `Ok(false)`; its error otherwise.
pub open spec fn check_answered<P: Platform>(platform: &P, path: &str, r: CheckReport) -> bool {
    exists|a: Result<bool, String>|
        #[trigger] says_in_use(platform, path, a) && match a {
            Ok(true) => r matches CheckReport::InUse { path: p, locking } && p@ == path@
                && says_locking(platform, path, locking),
            Ok(false) => r matches CheckReport::Free { path: p } && p@ == path@,
            Err(e) => r == CheckReport::Unknown { error: e },
        }
}

/// A `check` reports the path in use only when the platform said it is in use, and
/// free only when the platform said it is free.
pub proof fn lemma_check_follows_platform<P: Platform>(platform: &P, path: &str, r: CheckReport)
    requires
        check_answered(platform, path, r),
    ensures
        r is InUse ==> says_in_use(platform, path, Ok(true)),
        r is Free ==> says_in_use(platform, path, Ok(false)),
        r matches CheckReport::Unknown { error } ==> says_in_use(platform, path, Err(error)),
{
}

// ─── delete and rename ──────────────────────────────────

/// What `delete` or `rename` decides before touching the file system.
pub enum GuardStep {
    /// The path does not exist (exit code 2).
    NotFound { path: String },
    /// The path is in use (exit code 1); the processes holding it, when they could be
    /// listed.
    InUse { path: String, processes: Vec<ProcessInfo> },
    /// The check failed (exit code 2).
    CheckFailed { error: String },
    /// The path exists and is free: go ahead.
    Proceed,
}

impl GuardStep {
    /// 2 missing, 1 in use, 2 check failed; 0 to go ahead.
    pub fn exit_code(&self) -> (c: i32)
        ensures
            self is NotFound ==> c == 2,
            self is InUse ==> c == 1,
            self is CheckFailed ==> c == 2,
            self is Proceed ==> c == 0,
    {
        match self {
            GuardStep::NotFound { .. } => 2,
            GuardStep::InUse { .. } => 1,
            GuardStep::CheckFailed { .. } => 2,
            GuardStep::Proceed => 0,
        }
    }
}

/// The guard's decision for an existing path from the platform's answers: `in_use`,
/// whether the path is held, and `locking`, the processes holding it (asked only when it
/// is held; a failed listing counts as no process).
pub fn guard_step(path: &str, in_use: Result<bool, String>, locking: Result<
    Vec<ProcessInfo>,
    String,
>) -> (r: GuardStep)
    ensures
        match in_use {
            Ok(true) => r matches GuardStep::InUse { path: p, processes } && p@ == path@ && (
            match locking {
                Ok(l) => processes == l,
                Err(_) => processes@.len() == 0,
            }),
            Ok(false) => r is Proceed,
            Err(e) => r matches GuardStep::CheckFailed { error } && error == e,
        },
{
    match in_use {
        Ok(true) => {
            let processes = match locking {
                Ok(list) => list,
                Err(_) => Vec::new(),
            };
            GuardStep::InUse { path: owned(path), processes }
        },
        Ok(false) => GuardStep::Proceed,
        Err(e) => GuardStep::CheckFailed { error: e },
    }
}

/// 安全删除/重命名的检查: a missing path is refused, a path in use is refused with the
/// processes holding it, and only a path known to be free may be deleted or moved (see
/// `guard_step`).
pub fn guard_path<P: Platform>(platform: &P, path: &str, exists: bool) -> (r: GuardStep)
    ensures
        !exists ==> (r matches GuardStep::NotFound { path: p } && p@ == path@),
        exists ==> match r {
            GuardStep::NotFound { .. } => false,
            GuardStep::InUse { path: p, .. } => p@ == path@,
            _ => true,
        },
        guard_answered(platform, path, exists, r),
{
    if !exists {
        return GuardStep::NotFound { path: owned(path) };
    }
    let answer = platform.check_file_in_use(path);
    let ghost a = answer;
    assert(says_in_use(platform, path, a));
    match answer {
        Ok(true) => {
            let locking = platform.find_locking_processes(path);
            let ghost l = locking;
            let r = guard_step(path, Ok(true), locking);
            assert(says_locking(platform, path, l));
            assert(a == Ok::<bool, String>(true));
            r
        },
        other => guard_step(path, other, Ok(Vec::new())),
    }
}

/// What the guard of `delete` and `rename` decides follows whether the path exists and
/// an answer the platform gave for it: a missing path is refused as missing; otherwise
/// the path is refused as in use, with the processes the platform then listed (none if
/// it could not list them), when the platform answered `Ok(true)`; the operation goes
/// ahead when it answered `Ok(false)`; and its error refuses it otherwise.
pub open spec fn guard_answered<P: Platform>(platform: &P, path: &str, exists: bool, r: GuardStep) -> bool {
    if !exists {
        r matches GuardStep::NotFound { path: p } && p@ == path@
    } else {
        exists|a: Result<bool, String>|
            #[trigger] says_in_use(platform, path, a) && match a {
                Ok(true) => r matches GuardStep::InUse { path: p, processes } && p@ == path@
                    && exists|l: Result<Vec<ProcessInfo>, String>|
                    #[trigger] says_locking(platform, path, l) && match l {
                        Ok(v) => processes == v,
                        Err(_) => processes@.len() == 0,
                    },
                Ok(false) => r is Proceed,
                Err(e) => r == GuardStep::CheckFailed { error: e },
            }
    }
}

/// 安全删除: a delete or rename goes ahead only for a path that exists and that the
/// platform said is free; a path the platform said is in use is refused as in use; a
/// missing path is refused as missing.
pub proof fn lemma_guard_follows_platform<P: Platform>(
    platform: &P,
    path: &str,
    exists: bool,
    r: GuardStep,
)
    requires
        guard_answered(platform, path, exists, r),
    ensures
        r is Proceed ==> exists && says_in_use(platform, path, Ok(false)),
        r is InUse ==> exists && says_in_use(platform, path, Ok(true)),
        r is NotFound <==> !exists,
        r matches GuardStep::CheckFailed { error } ==> exists && says_in_use(platform, path, Err(error)),
{
}

/// The guard of `delete`.
pub fn cmd_delete<P: Platform>(platform: &P, path: &str, exists: bool) -> (r: GuardStep)
    ensures
        !exists ==> (r matches GuardStep::NotFound { path: p } && p@ == path@),
        exists ==> !(r is NotFound),
        guard_answered(platform, path, exists, r),
{
    guard_path(platform, path, exists)
}

/// The guard of `rename`/`move` (on the source).
pub fn cmd_rename<P: Platform>(platform: &P, src: &str, exists: bool) -> (r: GuardStep)
    ensures
        !exists ==> (r matches GuardStep::NotFound { path: p } && p@ == src@),
        exists ==> !(r is NotFound),
        guard_answered(platform, src, exists, r),
{
    guard_path(platform, src, exists)
}

/// What to do after `fs::rename` of a free source.
pub enum RenameNext {
    /// Renamed (exit code 0).
    Moved,
    /// Renaming a file failed: copy it and delete the source instead.
    CopyThenDelete { rename_error: String },
    /// Renaming a folder failed (exit code 2).
    Failed { error: String },
}

/// After a rename: done when it worked; for a file, fall back to copying; for a folder,
/// fail.
pub fn after_rename(result: Result<(), String>, src_is_file: bool) -> (r: RenameNext)
    ensures
        match result {
            Ok(()) => r is Moved,
            Err(e) => if src_is_file {
                r matches RenameNext::CopyThenDelete { rename_error } && rename_error == e
            } else {
                r matches RenameNext::Failed { error } && error == e
            },
        },
{
    match result {
        Ok(()) => RenameNext::Moved,
        Err(e) => if src_is_file {
            RenameNext::CopyThenDelete { rename_error: e }
        } else {
            RenameNext::Failed { error: e }
        },
    }
}

/// How a copy-then-delete move ended.
pub enum CopyOutcome {
    /// Moved by copying (exit code 0).
    Moved,
    /// Both the rename and the copy failed (exit code 2).
    Failed { rename_error: String, copy_error: String },
}

/// After the copy-then-delete fallback.
pub fn after_copy(rename_error: String, result: Result<(), String>) -> (r: CopyOutcome)
    ensures
        match result {
            Ok(()) => r is Moved,
            Err(e) => r matches CopyOutcome::Failed { rename_error: a, copy_error: b } && a
                == rename_error && b == e,
        },
{
    match result {
        Ok(()) => CopyOutcome::Moved,
        Err(e) => CopyOutcome::Failed { rename_error, copy_error: e },
    }
}

// ─── port and where ─────────────────────────────────────

/// What `port` found.
pub enum PortReport {
    /// The argument is not a port number (exit code 2).
    InvalidPort { text: String },
    /// No socket is bound to the port.
    NoBinding { port: u16 },
    /// The sockets bound to the port.
    Bindings { port: u16, bindings: Vec<PortBinding> },
    /// The lookup failed (exit code 2).
    Failed { error: String },
}

impl PortReport {
    /// 2 for an invalid port or a failed lookup, otherwise 0.
    pub fn exit_code(&self) -> (c: i32)
        ensures
            (self is InvalidPort || self is Failed) ==> c == 2,
            (self is NoBinding || self is Bindings) ==> c == 0,
    {
        match self {
            PortReport::InvalidPort { .. } => 2,
            PortReport::Failed { .. } => 2,
            _ => 0,
        }
    }
}

/// What `port` reports for a valid port from the platform's answer.
pub fn port_report(port: u16, found: Result<Vec<PortBinding>, String>) -> (r: PortReport)
    ensures
        match found {
            Ok(b) => if b@.len() == 0 {
                r == PortReport::NoBinding { port }
            } else {
                r == PortReport::Bindings { port, bindings: b }
            },
            Err(e) => r matches PortReport::Failed { error } && error == e,
        },
{
    match found {
        Ok(bindings) => if bindings.len() == 0 {
            PortReport::NoBinding { port }
        } else {
            PortReport::Bindings { port, bindings }
        },
        Err(e) => PortReport::Failed { error: e },
    }
}

/// 查找占用指定端口的进程: the argument must read as a `u16` (see `port_report`).
pub fn cmd_port<P: Platform>(platform: &P, port_str: &str) -> (r: PortReport)
    ensures
        parse_u16_spec(port_str@) is None <==> r is InvalidPort,
        r matches PortReport::InvalidPort { text } ==> text@ == port_str@,
        r matches PortReport::NoBinding { port } ==> parse_u16_spec(port_str@) == Some(port as nat),
        r matches PortReport::Bindings { port, bindings } ==> parse_u16_spec(port_str@) == Some(
            port as nat,
        ) && bindings@.len() > 0,
        forall|port: u16|
            parse_u16_spec(port_str@) == Some(port as nat) ==> #[trigger] port_answered(
                platform,
                port,
                r,
            ),
{
    match parse_u16(port_str) {
        None => PortReport::InvalidPort { text: owned(port_str) },
        Some(port) => {
            let found = platform.find_process_by_port(port);
            let ghost f = found;
            let r = port_report(port, found);
            assert(says_by_port(platform, port, f));
            r
        },
    }
}

/// What `port` reports for a valid port follows an answer the platform gave for it:
/// no binding when it listed none, exactly the bindings it listed otherwise, and its
/// error when it failed.
pub open spec fn port_answered<P: Platform>(platform: &P, port: u16, r: PortReport) -> bool {
    exists|a: Result<Vec<PortBinding>, String>|
        #[trigger] says_by_port(platform, port, a) && match a {
            Ok(v) => if v@.len() == 0 {
                r == PortReport::NoBinding { port }
            } else {
                r == PortReport::Bindings { port, bindings: v }
            },
            Err(e) => r == PortReport::Failed { error: e },
        }
}

/// What `where` found.
pub enum WhereReport {
    /// The program is not on `PATH`.
    NotFound { name: String },
    /// Where it was found.
    Found { name: String, paths: Vec<String> },
}

/// What `where` reports from the paths found.
pub fn where_report(name: &str, paths: Vec<String>) -> (r: WhereReport)
    ensures
        paths@.len() == 0 ==> (r matches WhereReport::NotFound { name: n } && n@ == name@),
        paths@.len() > 0 ==> (r matches WhereReport::Found { name: n, paths: p } && n@ == name@
            && p == paths),
{
    if paths.len() == 0 {
        WhereReport::NotFound { name: owned(name) }
    } else {
        WhereReport::Found { name: owned(name), paths }
    }
}

/// 在 PATH 中查找程序位置 (see `where_report`).
pub fn cmd_where<P: Platform>(platform: &P, name: &str) -> (r: WhereReport)
    ensures
        match r {
            WhereReport::NotFound { name: n } => n@ == name@,
            WhereReport::Found { name: n, paths } => n@ == name@ && paths@.len() > 0,
        },
        where_answered(platform, name, r),
{
    let paths = platform.find_in_path(name);
    let ghost p = paths;
    let r = where_report(name, paths);
    assert(says_in_path(platform, name, p));
    r
}

/// What `where` reports follows an answer the platform gave for the name: not found
/// when it listed no path, otherwise exactly the paths it listed, all of them, in its
/// order.
pub open spec fn where_answered<P: Platform>(platform: &P, name: &str, r: WhereReport) -> bool {
    exists|a: Vec<String>|
        #[trigger] says_in_path(platform, name, a) && if a@.len() == 0 {
            r matches WhereReport::NotFound { name: n } && n@ == name@
        } else {
            r matches WhereReport::Found { name: n, paths } && n@ == name@ && paths == a
        }
}

/// `where` lists every path the platform found and nothing else: as many paths as the
/// platform gave, each the one it gave at that place.
pub proof fn lemma_where_lists_all<P: Platform>(platform: &P, name: &str, r: WhereReport)
    requires
        where_answered(platform, name, r),
    ensures
        r matches WhereReport::Found { paths, .. } ==> exists|a: Vec<String>|
            #[trigger] says_in_path(platform, name, a) && paths@.len() == a@.len() && forall|i: int|
                0 <= i < a@.len() ==> paths@[i] == a@[i],
        r is NotFound ==> exists|a: Vec<String>|
            #[trigger] says_in_path(platform, name, a) && a@.len() == 0,
{
}

// ─── paths ──────────────────────────────────────────────

/// Two absolute paths name the same location: in lower case, their locations (see
/// `location`) are the same.
pub open spec fn same_place(a: Seq<char>, b: Seq<char>) -> bool {
    location(lowercase(a)) == location(lowercase(b))
}

/// Text in ASCII lower case.
pub open spec fn ascii_folded(s: Seq<char>) -> Seq<char> {
    s.map_values(|c: char| ascii_lower(c))
}

/// 判断两个路径是否指向同一位置, given both already made absolute (see `same_place`);
/// for ASCII paths, the lower case is the ASCII one.
pub fn paths_equivalent(a_abs: &str, b_abs: &str) -> (b: bool)
    ensures
        b == same_place(a_abs@, b_abs@),
        vstd::utf8::is_ascii_chars(a_abs@) && vstd::utf8::is_ascii_chars(b_abs@) ==> b == (
        location(ascii_folded(a_abs@)) == location(ascii_folded(b_abs@))),
{
    let la = to_lowercase(a_abs);
    let lb = to_lowercase(b_abs);
    let ca = chars_of(la.as_str());
    let cb = chars_of(lb.as_str());
    let x = path_location(ca.as_slice());
    let y = path_location(cb.as_slice());
    same_pieces(&x, &y)
}

/// 判断两个路径是否指向同一位置 is an equivalence: every path names the same place as
/// itself, the relation is symmetric, and an ASCII path names the same place as its
/// upper-case form.
pub proof fn lemma_same_place(a: Seq<char>, b: Seq<char>)
    ensures
        same_place(a, a),
        same_place(a, b) == same_place(b, a),
        location(ascii_folded(a)) == location(ascii_folded(a.map_values(|c: char| ascii_upper(c)))),
        vstd::utf8::is_ascii_chars(a) ==> vstd::utf8::is_ascii_chars(
            a.map_values(|c: char| ascii_upper(c)),
        ),
{
    let u = a.map_values(|c: char| ascii_upper(c));
    assert forall|i: int| 0 <= i < a.len() implies ascii_lower(ascii_upper(#[trigger] a[i]))
        == ascii_lower(a[i]) by {
        let c = a[i];
        if 'a' <= c <= 'z' {
            assert((((c as u32) - 32) as char) as u32 == (c as u32) - 32);
            assert((((((c as u32) - 32) as char) as u32) + 32) as char == c);
        }
    }
    assert(ascii_folded(u) =~= ascii_folded(a));
    if vstd::utf8::is_ascii_chars(a) {
        assert forall|i: int| 0 <= i < u.len() implies '\0' <= #[trigger] u[i] <= '\u{7f}' by {
            let c = a[i];
            if 'a' <= c <= 'z' {
                assert((((c as u32) - 32) as char) as u32 == (c as u32) - 32);
            }
        }
    }
}

proof fn lemma_location_split(x: Seq<char>, mid: Seq<Seq<char>>, y: Seq<char>, whole: Seq<char>)
    requires
        split_at_char(slashed(whole), '/') == split_at_char(slashed(x), '/') + mid
            + split_at_char(slashed(y), '/'),
    ensures
        location(whole) == seq![split_at_char(slashed(x), '/')[0]] + resolve_pieces(
            resolve_pieces(resolve_pieces(seq![], split_at_char(slashed(x), '/').skip(1)), mid),
            split_at_char(slashed(y), '/'),
        ),
{
    let px = split_at_char(slashed(x), '/');
    let py = split_at_char(slashed(y), '/');
    lemma_split_nonempty(slashed(x), '/');
    let ps = split_at_char(slashed(whole), '/');
    assert(ps[0] == px[0]);
    assert(ps.skip(1) =~= px.skip(1) + mid + py);
    lemma_resolve_concat(seq![], px.skip(1) + mid, py);
    lemma_resolve_concat(seq![], px.skip(1), mid);
}

/// The location of a path ignores `.` pieces and trailing separators: `x/./y` names
/// the same place as `x/y`, and `x/` and `x\` the same as `x`. So does the ASCII lower
/// case of those texts.
pub proof fn lemma_location_dots(x: Seq<char>, y: Seq<char>)
    ensures
        location(x + seq!['/', '.', '/'] + y) == location(x + seq!['/'] + y),
        location(x + seq!['/']) == location(x),
        location(x + seq!['\\']) == location(x),
        location(ascii_folded(x + seq!['/', '.', '/'] + y)) == location(
            ascii_folded(x + seq!['/'] + y),
        ),
{
    lemma_location_dots_plain(x, y);
    let fx = ascii_folded(x);
    let fy = ascii_folded(y);
    assert(ascii_folded(x + seq!['/', '.', '/'] + y) =~= fx + seq!['/', '.', '/'] + fy);
    assert(ascii_folded(x + seq!['/'] + y) =~= fx + seq!['/'] + fy);
    lemma_location_dots_plain(fx, fy);
}

proof fn lemma_location_dots_plain(x: Seq<char>, y: Seq<char>)
    ensures
        location(x + seq!['/', '.', '/'] + y) == location(x + seq!['/'] + y),
        location(x + seq!['/']) == location(x),
        location(x + seq!['\\']) == location(x),
{
    let sx = slashed(x);
    let sy = slashed(y);
    let dot: Seq<char> = seq!['.'];
    crate::paths::lemma_find_char_none_pub(dot, '/');
    assert(split_at_char(dot, '/') == seq![dot]);
    // x/./y
    let w1 = x + seq!['/', '.', '/'] + y;
    assert(slashed(w1) =~= sx + seq!['/'] + (dot + seq!['/'] + sy));
    lemma_split_concat(sx, dot + seq!['/'] + sy, '/');
    lemma_split_concat(dot, sy, '/');
    assert(split_at_char(slashed(w1), '/') =~= split_at_char(sx, '/') + seq![dot]
        + split_at_char(sy, '/'));
    lemma_location_split(x, seq![dot], y, w1);
    // x/y
    let w2 = x + seq!['/'] + y;
    assert(slashed(w2) =~= sx + seq!['/'] + sy);
    lemma_split_concat(sx, sy, '/');
    assert(split_at_char(slashed(w2), '/') =~= split_at_char(sx, '/') + Seq::<Seq<char>>::empty()
        + split_at_char(sy, '/'));
    lemma_location_split(x, Seq::<Seq<char>>::empty(), y, w2);
    let r0 = resolve_pieces(seq![], split_at_char(sx, '/').skip(1));
    assert(seq![dot].drop_last() =~= Seq::<Seq<char>>::empty());
    assert(resolve_pieces(r0, seq![dot]) == step_piece(r0, dot));
    // trailing separators
    let e: Seq<char> = Seq::empty();
    assert(split_at_char(e, '/') == seq![e]);
    let w3 = x + seq!['/'];
    assert(slashed(w3) =~= sx + seq!['/'] + e);
    lemma_split_concat(sx, e, '/');
    let w4 = x + seq!['\\'];
    assert(slashed(w4) =~= sx + seq!['/'] + e);
    let px = split_at_char(sx, '/');
    lemma_split_nonempty(sx, '/');
    assert(split_at_char(slashed(w3), '/').skip(1) =~= px.skip(1) + seq![e]);
    lemma_resolve_concat(seq![], px.skip(1), seq![e]);
    assert(seq![e].drop_last() =~= Seq::<Seq<char>>::empty());
    assert(resolve_pieces(r0, seq![e]) == step_piece(r0, e));
}

/// The location of a path reads `..` after a name as going back: `x/n/../y` names the
/// same place as `x/y` for a piece `n` other than empty, `.` and `..`.
pub proof fn lemma_location_parent(x: Seq<char>, n: Seq<char>, y: Seq<char>)
    requires
        n.len() > 0,
        n != seq!['.'],
        n != seq!['.', '.'],
        forall|i: int| 0 <= i < n.len() ==> #[trigger] n[i] != '/' && n[i] != '\\',
    ensures
        location(x + seq!['/'] + n + seq!['/', '.', '.', '/'] + y) == location(x + seq!['/'] + y),
{
    let sx = slashed(x);
    let sy = slashed(y);
    assert(slashed(n) =~= n);
    let dd: Seq<char> = seq!['.', '.'];
    crate::paths::lemma_find_char_none_pub(dd, '/');
    assert(split_at_char(dd, '/') == seq![dd]);
    crate::paths::lemma_find_char_none_pub(n, '/');
    assert(split_at_char(n, '/') == seq![n]);
    let w1 = x + seq!['/'] + n + seq!['/', '.', '.', '/'] + y;
    assert(slashed(w1) =~= sx + seq!['/'] + (n + seq!['/'] + (dd + seq!['/'] + sy)));
    lemma_split_concat(sx, n + seq!['/'] + (dd + seq!['/'] + sy), '/');
    lemma_split_concat(n, dd + seq!['/'] + sy, '/');
    lemma_split_concat(dd, sy, '/');
    assert(split_at_char(slashed(w1), '/') =~= split_at_char(sx, '/') + seq![n, dd]
        + split_at_char(sy, '/'));
    lemma_location_split(x, seq![n, dd], y, w1);
    let w2 = x + seq!['/'] + y;
    assert(slashed(w2) =~= sx + seq!['/'] + sy);
    lemma_split_concat(sx, sy, '/');
    assert(split_at_char(slashed(w2), '/') =~= split_at_char(sx, '/') + Seq::<Seq<char>>::empty()
        + split_at_char(sy, '/'));
    lemma_location_split(x, Seq::<Seq<char>>::empty(), y, w2);
    let r0 = resolve_pieces(seq![], split_at_char(sx, '/').skip(1));
    assert(seq![n, dd].drop_last() =~= seq![n]);
    assert(seq![n].drop_last() =~= Seq::<Seq<char>>::empty());
    assert(resolve_pieces(r0, seq![n]) == step_piece(r0, n));
    assert(step_piece(r0, n) == r0.push(n));
    assert(r0.push(n).drop_last() =~= r0);
}

} // verus!
