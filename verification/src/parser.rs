use vstd::prelude::*;

verus! {

/// The xml-text that a parser works on.
pub struct XmlParser {
    pub xml: String,
}

/// The small xml-example that a default parser holds.
pub open spec fn default_xml() -> Seq<char> {
    "
                <tag1 att1 = \"test\">
                    <tag2><!--Test comment-->TEST</tag2>
                    <tag2>
                        Test 2
                    </tag2>
                </tag1>
            "@
}

impl Default for XmlParser {
    fn default() -> (p: XmlParser)
        ensures
            p.xml@ == default_xml(),
    {
        XmlParser {
            xml: "
                <tag1 att1 = \"test\">
                    <tag2><!--Test comment-->TEST</tag2>
                    <tag2>
                        Test 2
                    </tag2>
                </tag1>
            ".to_owned(),
        }
    }
}

} // verus!
