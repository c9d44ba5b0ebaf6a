//! The usage text of the command surface.

use vstd::prelude::*;

verus! {

/// How the commands are used.
pub const TODO_HELP: &'static str = "USAGE: todo [COMMAND] [ARGUMENTS] Todo is a super fast and simple task organizer written in rust 
Available commands:
    -add [TASK/s]
    adds new task/s
    Exaple: todo add \"buy carrots\"
    -edit [INDEX] [EDITED TASK/s]
    edits an existing task/s
    example: todo edit 1 banana
    -list:
    list all tasks, ex: todo list 
    -done:
     mark task as done, ex. todo done 2 3
    -rm [INDEX]
        removes a task
        example: todo rm 4
    -reset : delete all tasks
    -restore: restore recent backup after reset 
    -sort: sorts completed & uncompleted tasks
    ex: todo sort 

    -raw [todo/done]
    prints nothing but done/incompleted tasks in plain text,
    ex: todo raw done 
    ";

/// The usage text.
pub fn help() -> (r: &'static str)
    ensures
        r@ == TODO_HELP@,
{
    TODO_HELP
}

} // verus!
