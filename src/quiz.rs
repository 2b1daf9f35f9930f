//! Entities for representing quizzes: item types, items, and the quiz itself.
use vstd::prelude::*;

verus! {

/// The largest number of items a quiz can hold: its cached length is a `u8`.
pub const MAX_ITEMS: usize = 255;

/// The kind of a quiz item. The set of kinds is closed.
#[derive(Debug, Clone, Copy, PartialEq, Eq, Structural)]
pub enum QuizItemType {
    MultipleChoice,
    FillInTheBlank,
    TrueOrFalse,
}

/// A numeric type code that names no item type.
#[derive(Debug, Clone, Copy, PartialEq, Eq, Structural)]
pub struct InvalidNumberError(pub u8);

/// Why a quiz could not be built.
#[derive(Debug, Clone, Copy, PartialEq, Eq, Structural)]
pub enum QuizError {
    /// A raw type code outside the accepted set.
    InvalidTypeCode(u8),
    /// More items than the cached `u8` length can count.
    TooManyItems,
}

/// The item type that a numeric code stands for: 1, 2 and 3, and nothing else.
pub open spec fn type_of_code(code: u8) -> Option<QuizItemType> {
    if code == 1 {
        Some(QuizItemType::TrueOrFalse)
    } else if code == 2 {
        Some(QuizItemType::MultipleChoice)
    } else if code == 3 {
        Some(QuizItemType::FillInTheBlank)
    } else {
        None
    }
}

/// The numeric code of an item type; `type_of_code` undoes it.
pub open spec fn code_of_type(t: QuizItemType) -> u8 {
    match t {
        QuizItemType::TrueOrFalse => 1,
        QuizItemType::MultipleChoice => 2,
        QuizItemType::FillInTheBlank => 3,
    }
}

impl QuizItemType {
    /// Converts a numeric code to an item type, or fails with the code.
    pub fn from_code(code: u8) -> (r: Result<QuizItemType, InvalidNumberError>)
        ensures
            r is Ok <==> 1 <= code <= 3,
            r matches Ok(t) ==> type_of_code(code) == Some(t) && code_of_type(t) == code,
            r matches Err(e) ==> e == InvalidNumberError(code) && type_of_code(code) is None,
    {
        match code {
            1 => Ok(QuizItemType::TrueOrFalse),
            2 => Ok(QuizItemType::MultipleChoice),
            3 => Ok(QuizItemType::FillInTheBlank),
            other => Err(InvalidNumberError(other)),
        }
    }

    /// The numeric code of this item type.
    pub fn code(&self) -> (r: u8)
        ensures
            r == code_of_type(*self),
            type_of_code(r) == Some(*self),
    {
        match self {
            QuizItemType::TrueOrFalse => 1,
            QuizItemType::MultipleChoice => 2,
            QuizItemType::FillInTheBlank => 3,
        }
    }
}

/// What a quiz item holds, as mathematical values.
pub struct QuizItemModel {
    pub item_type: QuizItemType,
    pub question: Seq<char>,
    pub answer: Seq<char>,
}

/// A quiz item: a question and its answer, tagged with a type.
#[derive(Debug, PartialEq, Eq)]
pub struct QuizItem {
    item_type: QuizItemType,
    question: String,
    answer: String,
}

impl View for QuizItem {
    type V = QuizItemModel;

    closed spec fn view(&self) -> QuizItemModel {
        QuizItemModel { item_type: self.item_type, question: self.question@, answer: self.answer@ }
    }
}

/// The item that a raw `(code, question, answer)` tuple stands for, where the code is valid.
pub open spec fn raw_item_model(code: u8, question: Seq<char>, answer: Seq<char>) -> QuizItemModel
    recommends
        type_of_code(code) is Some,
{
    QuizItemModel { item_type: type_of_code(code)->Some_0, question, answer }
}

impl QuizItem {
    /// Creates a new quiz item.
    pub fn new(q_type: QuizItemType, question: String, answer: String) -> (r: QuizItem)
        ensures
            r@ == (QuizItemModel { item_type: q_type, question: question@, answer: answer@ }),
    {
        QuizItem { item_type: q_type, question, answer }
    }

    /// Creates a quiz item from a numeric type code, which must name an item type.
    pub fn from_raw(code: u8, question: String, answer: String) -> (r: Result<
        QuizItem,
        InvalidNumberError,
    >)
        ensures
            r is Ok <==> type_of_code(code) is Some,
            r matches Ok(item) ==> item@ == raw_item_model(code, question@, answer@),
            r matches Err(e) ==> e == InvalidNumberError(code),
    {
        match QuizItemType::from_code(code) {
            Ok(t) => Ok(QuizItem::new(t, question, answer)),
            Err(e) => Err(e),
        }
    }

    /// Replaces the question of this item.
    pub fn set_question(&mut self, question: String)
        ensures
            final(self)@ == (QuizItemModel { question: question@, ..old(self)@ }),
    {
        self.question = question;
    }

    /// Replaces the answer of this item.
    pub fn set_answer(&mut self, answer: String)
        ensures
            final(self)@ == (QuizItemModel { answer: answer@, ..old(self)@ }),
    {
        self.answer = answer;
    }

    /// The question of this item.
    pub fn get_question(&self) -> (r: &String)
        ensures
            r@ == self@.question,
    {
        &self.question
    }

    /// The answer of this item.
    pub fn get_answer(&self) -> (r: &String)
        ensures
            r@ == self@.answer,
    {
        &self.answer
    }

    /// The type of this item.
    pub fn get_type(&self) -> (r: QuizItemType)
        ensures
            r == self@.item_type,
    {
        self.item_type
    }
}

/// A quiz: an ordered sequence of items, with a cached count of them.
#[derive(Debug, PartialEq, Eq)]
pub struct Quiz {
    length: u8,
    items: Vec<QuizItem>,
}

/// The models of a sequence of items.
pub open spec fn item_models(items: Seq<QuizItem>) -> Seq<QuizItemModel> {
    items.map_values(|it: QuizItem| it@)
}

impl View for Quiz {
    type V = Seq<QuizItemModel>;

    closed spec fn view(&self) -> Seq<QuizItemModel> {
        item_models(self.items@)
    }
}

impl Quiz {
    /// Well-formedness: the cached length counts the items, which are never more than
    /// `MAX_ITEMS`. Every constructor establishes it and `add_quiz` keeps it.
    pub closed spec fn wf(&self) -> bool {
        &&& self.items@.len() <= MAX_ITEMS
        &&& self.length as nat == self.items@.len()
    }

    /// The cached length, as stored.
    pub closed spec fn stored_length(&self) -> nat {
        self.length as nat
    }

    /// Creates an empty quiz.
    pub fn new() -> (r: Quiz)
        ensures
            r.wf(),
            r@ == Seq::<QuizItemModel>::empty(),
    {
        let r = Quiz { length: 0, items: Vec::new() };
        assert(r@ =~= Seq::<QuizItemModel>::empty());
        r
    }

    /// Appends an item at the end of this quiz, unless it already holds `MAX_ITEMS` items;
    /// then the quiz is left as it was.
    pub fn add_quiz(&mut self, quiz: QuizItem) -> (r: Result<(), QuizError>)
        requires
            old(self).wf(),
        ensures
            final(self).wf(),
            r is Ok <==> old(self)@.len() < MAX_ITEMS,
            r matches Ok(_) ==> final(self)@ == old(self)@.push(quiz@),
            r matches Err(e) ==> e == QuizError::TooManyItems && final(self)@ == old(self)@,
    {
        if self.length == 255 {
            return Err(QuizError::TooManyItems);
        }
        let ghost before = self.items@;
        self.length = self.length + 1;
        self.items.push(quiz);
        assert(item_models(self.items@) =~= item_models(before).push(quiz@));
        Ok(())
    }

    /// The item at position `n`, or `None` past the end.
    pub fn get_quiz(&self, n: usize) -> (r: Option<&QuizItem>)
        ensures
            r is Some <==> n < self@.len(),
            r matches Some(item) ==> item@ == self@[n as int],
    {
        if n < self.items.len() {
            Some(&self.items[n])
        } else {
            None
        }
    }

    /// The number of items in this quiz.
    pub fn get_length(&self) -> (r: u8)
        requires
            self.wf(),
        ensures
            r as nat == self@.len(),
            r as nat == self.stored_length(),
    {
        self.length
    }

    /// Builds a quiz from items, in their order; fails where there are more than `MAX_ITEMS`.
    pub fn from_items(items: Vec<QuizItem>) -> (r: Result<Quiz, QuizError>)
        ensures
            r is Ok <==> items@.len() <= MAX_ITEMS,
            r matches Ok(q) ==> q.wf() && q@ == item_models(items@),
            r matches Err(e) ==> e == QuizError::TooManyItems,
    {
        if items.len() > MAX_ITEMS {
            return Err(QuizError::TooManyItems);
        }
        Ok(Quiz { length: items.len() as u8, items })
    }
}

/// The items that a sequence of raw `(code, question, answer)` tuples stands for.
pub open spec fn raw_models(raw: Seq<(u8, &str, &str)>) -> Seq<QuizItemModel> {
    raw.map_values(|t: (u8, &str, &str)| raw_item_model(t.0, t.1@, t.2@))
}

/// Every raw tuple carries a valid type code.
pub open spec fn all_codes_valid(raw: Seq<(u8, &str, &str)>) -> bool {
    forall|i: int| 0 <= i < raw.len() ==> (#[trigger] type_of_code(raw[i].0)) is Some
}

impl Quiz {
    /// Builds a quiz from raw `(code, question, answer)` tuples, in their order. The codes
    /// are checked first: the first invalid one fails the construction with
    /// `InvalidTypeCode`. Where every code is valid and there are more than `MAX_ITEMS`
    /// tuples, it fails with `TooManyItems`. No quiz is built then.
    pub fn from_raw(raw: Vec<(u8, &str, &str)>) -> (r: Result<Quiz, QuizError>)
        ensures
            r is Ok <==> raw@.len() <= MAX_ITEMS && all_codes_valid(raw@),
            r matches Ok(q) ==> q.wf() && q@ == raw_models(raw@),
            r matches Err(QuizError::TooManyItems) ==> raw@.len() > MAX_ITEMS && all_codes_valid(
                raw@,
            ),
            r matches Err(QuizError::InvalidTypeCode(c)) ==> exists|i: int|
                0 <= i < raw@.len() && #[trigger] raw@[i].0 == c && type_of_code(c) is None
                    && forall|j: int| 0 <= j < i ==> (#[trigger] type_of_code(raw@[j].0)) is Some,
    {
        let mut items: Vec<QuizItem> = Vec::new();
        let mut i: usize = 0;
        while i < raw.len()
            invariant
                i <= raw@.len(),
                items@.len() == i,
                forall|j: int| 0 <= j < i ==> (#[trigger] type_of_code(raw@[j].0)) is Some,
                forall|j: int|
                    0 <= j < i ==> (#[trigger] items@[j])@ == raw_item_model(
                        raw@[j].0,
                        raw@[j].1@,
                        raw@[j].2@,
                    ),
            decreases raw@.len() - i,
        {
            let (code, question, answer) = raw[i];
            match QuizItemType::from_code(code) {
                Ok(t) => {
                    items.push(QuizItem::new(t, question.to_owned(), answer.to_owned()));
                },
                Err(_) => {
                    return Err(QuizError::InvalidTypeCode(code));
                },
            }
            i = i + 1;
        }
        if items.len() > MAX_ITEMS {
            return Err(QuizError::TooManyItems);
        }
        assert(item_models(items@) =~= raw_models(raw@));
        Ok(Quiz { length: items.len() as u8, items })
    }
}

/// Whatever sequence of constructions and appends produced a quiz, its cached length equals
/// the number of items it holds.
pub proof fn lemma_length_counts_items(q: &Quiz)
    requires
        q.wf(),
    ensures
        q.stored_length() == q@.len(),
        q@.len() <= MAX_ITEMS,
{
}

} // verus!
