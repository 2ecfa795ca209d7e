//! Structs with methods, a shared trait, and composition.

use vstd::prelude::*;

use crate::text::{decimal, push_decimal};

verus! {

/// A teacher: a name and the subject taught.
#[derive(Debug, Clone, PartialEq, Eq)]
pub struct Teacher {
    name: String,
    subject: String,
}

impl Teacher {
    pub closed spec fn name_view(&self) -> Seq<char> {
        self.name@
    }

    pub closed spec fn subject_view(&self) -> Seq<char> {
        self.subject@
    }

    pub fn new(name: &str, subject: &str) -> (teacher: Self)
        ensures
            teacher.name_view() == name@,
            teacher.subject_view() == subject@,
    {
        Self { name: name.to_owned(), subject: subject.to_owned() }
    }

    pub fn subject(&self) -> (subject: &str)
        ensures
            subject@ == self.subject_view(),
    {
        self.subject.as_str()
    }
}

/// A student: a name and the courses enrolled in.
#[derive(Debug, Clone, PartialEq, Eq)]
pub struct Student {
    name: String,
    courses: Vec<String>,
}

impl Student {
    pub closed spec fn name_view(&self) -> Seq<char> {
        self.name@
    }

    pub closed spec fn courses_view(&self) -> Seq<Seq<char>> {
        self.courses@.map_values(|course: String| course@)
    }

    pub fn new(name: &str) -> (student: Self)
        ensures
            student.name_view() == name@,
            student.courses_view().len() == 0,
    {
        Self { name: name.to_owned(), courses: Vec::new() }
    }

    pub fn enroll(&mut self, course: &str)
        ensures
            final(self).name_view() == old(self).name_view(),
            final(self).courses_view() == old(self).courses_view().push(course@),
    {
        self.courses.push(course.to_owned());
        proof {
            assert(self.courses_view() =~= old(self).courses_view().push(course@));
        }
    }

    pub fn course_count(&self) -> (count: usize)
        ensures
            count == self.courses_view().len(),
    {
        self.courses.len()
    }
}

/// Behavior shared by every kind of person.
pub trait Person {
    spec fn name_text(&self) -> Seq<char>;

    spec fn role_text(&self) -> Seq<char>;

    fn name(&self) -> (name: &str)
        ensures
            name@ == self.name_text(),
    ;

    fn role(&self) -> (role: &'static str)
        ensures
            role@ == self.role_text(),
    ;

    /// "<name> is a <role>", unless a type says more about itself.
    fn describe(&self) -> (text: String)
        default_ensures
            text@ == self.name_text() + " is a "@ + self.role_text(),
    {
        let mut text = self.name().to_owned();
        text.append(" is a ");
        text.append(self.role());
        text
    }
}

impl Person for Teacher {
    open spec fn name_text(&self) -> Seq<char> {
        self.name_view()
    }

    open spec fn role_text(&self) -> Seq<char> {
        "teacher"@
    }

    fn name(&self) -> (name: &str) {
        self.name.as_str()
    }

    fn role(&self) -> (role: &'static str) {
        "teacher"
    }
}

impl Person for Student {
    open spec fn name_text(&self) -> Seq<char> {
        self.name_view()
    }

    open spec fn role_text(&self) -> Seq<char> {
        "student"@
    }

    fn name(&self) -> (name: &str) {
        self.name.as_str()
    }

    fn role(&self) -> (role: &'static str) {
        "student"
    }

    /// "<name> is a student taking <count> course(s)".
    fn describe(&self) -> (text: String)
        ensures
            text@ == self.name_view() + " is a student taking "@ + decimal(
                self.courses_view().len(),
            ) + " course(s)"@,
    {
        let mut text = self.name.clone();
        text.append(" is a student taking ");
        push_decimal(&mut text, self.courses.len() as u64);
        text.append(" course(s)");
        text
    }
}

/// A course: its title and the teacher who gives it.
#[derive(Debug, Clone, PartialEq, Eq)]
pub struct Course {
    title: String,
    instructor: Teacher,
}

impl Course {
    pub closed spec fn title_view(&self) -> Seq<char> {
        self.title@
    }

    pub closed spec fn instructor_view(&self) -> Teacher {
        self.instructor
    }

    pub fn new(title: &str, instructor: Teacher) -> (course: Self)
        ensures
            course.title_view() == title@,
            course.instructor_view() == instructor,
    {
        Self { title: title.to_owned(), instructor }
    }

    /// "<title> is taught by <teacher's name>".
    pub fn summary(&self) -> (text: String)
        ensures
            text@ == self.title_view() + " is taught by "@ + self.instructor_view().name_view(),
    {
        let mut text = self.title.clone();
        text.append(" is taught by ");
        text.append(self.instructor.name());
        text
    }
}

/// "Welcome, <name>!".
pub fn introduce(person: &impl Person) -> (text: String)
    ensures
        text@ == "Welcome, "@ + person.name_text() + "!"@,
{
    let mut text = "Welcome, ".to_owned();
    text.append(person.name());
    text.append("!");
    text
}

} // verus!
