//! Finding the applications linked into the kernel image.
use vstd::prelude::*;

verus! {

/// The index of the first application named `name` among `names`, if there is one.
pub fn get_app_data_by_name(names: &Vec<String>, name: &String) -> (r: Option<usize>)
    ensures
        match r {
            Some(i) => i < names@.len() && names@[i as int]@ == name@ && forall|j: int|
                0 <= j < i ==> (#[trigger] names@[j])@ != name@,
            None => forall|j: int| 0 <= j < names@.len() ==> (#[trigger] names@[j])@ != name@,
        },
{
    let mut i: usize = 0;
    while i < names.len()
        invariant
            0 <= i <= names@.len(),
            forall|j: int| 0 <= j < i ==> (#[trigger] names@[j])@ != name@,
        decreases names@.len() - i,
    {
        if names[i] == *name {
            return Some(i);
        }
        i = i + 1;
    }
    None
}

/// Where application `app_id` lies in the kernel image: its start address and its
/// length, from the table `app_start` of start addresses, the last entry being where
/// the last application ends.
pub fn get_app_data(app_start: &Vec<usize>, app_id: usize) -> (r: (usize, usize))
    requires
        app_id + 1 < app_start@.len(),
        app_start@[app_id as int] <= app_start@[app_id + 1],
    ensures
        r.0 == app_start@[app_id as int],
        r.1 == app_start@[app_id + 1] - app_start@[app_id as int],
{
    let _len: usize = app_start.len();
    let start: usize = app_start[app_id];
    let end: usize = app_start[app_id + 1];
    (start, end - start)
}

} // verus!
