//! The ISO-4217 currency table.

use vstd::prelude::*;
use crate::currency::{Currency, mk};
use crate::locale::Locale;
use crate::text::str_eq;

verus! {

/// The codes this segment of the table recognises.
pub open spec fn is_code_aed_to_azn(s: Seq<char>) -> bool {
    ||| s == ("AED")@
    ||| s == ("AFN")@
    ||| s == ("ALL")@
    ||| s == ("AMD")@
    ||| s == ("ANG")@
    ||| s == ("AOA")@
    ||| s == ("ARS")@
    ||| s == ("AUD")@
    ||| s == ("AWG")@
    ||| s == ("AZN")@
}

/// Table segment AED to AZN.
#[verifier::rlimit(50)]
fn find_aed_to_azn(code: &str) -> (r: Option<Currency>)
    ensures
        r is Some <==> is_code_aed_to_azn(code@),
        r matches Some(c) ==> c.wf() && c.code@ == code@,
{
    if str_eq(code, "AED") {
        Some(mk("AED", 2, Locale::EnUs, 25, "United Arab Emirates Dirham", "د.إ", false))
    } else if str_eq(code, "AFN") {
        Some(mk("AFN", 2, Locale::EnUs, 100, "Afghan Afghani", "؋", false))
    } else if str_eq(code, "ALL") {
        Some(mk("ALL", 2, Locale::EnEu, 1, "Albanian lek", "L", false))
    } else if str_eq(code, "AMD") {
        Some(mk("AMD", 2, Locale::EnUs, 10, "Armenian Dram", "դր.", false))
    } else if str_eq(code, "ANG") {
        Some(mk("ANG", 2, Locale::EnUs, 1, "Netherlands Antillean Gulden", "ƒ", false))
    } else if str_eq(code, "AOA") {
        Some(mk("AOA", 2, Locale::EnUs, 10, "Angolan Kwanza", "Kz", false))
    } else if str_eq(code, "ARS") {
        Some(mk("ARS", 2, Locale::EnEu, 1, "Argentine Peso", "$", true))
    } else if str_eq(code, "AUD") {
        Some(mk("AUD", 2, Locale::EnUs, 5, "Australian Dollar", "$", true))
    } else if str_eq(code, "AWG") {
        Some(mk("AWG", 2, Locale::EnUs, 5, "Aruban Florin", "ƒ", false))
    } else if str_eq(code, "AZN") {
        Some(mk("AZN", 2, Locale::EnUs, 1, "Azerbaijani Manat", "₼", true))
    } else {
        None
    }
}

/// The codes this segment of the table recognises.
pub open spec fn is_code_bam_to_brl(s: Seq<char>) -> bool {
    ||| s == ("BAM")@
    ||| s == ("BBD")@
    ||| s == ("BDT")@
    ||| s == ("BGN")@
    ||| s == ("BHD")@
    ||| s == ("BIF")@
    ||| s == ("BMD")@
    ||| s == ("BND")@
    ||| s == ("BOB")@
    ||| s == ("BRL")@
}

/// Table segment BAM to BRL.
#[verifier::rlimit(50)]
fn find_bam_to_brl(code: &str) -> (r: Option<Currency>)
    ensures
        r is Some <==> is_code_bam_to_brl(code@),
        r matches Some(c) ==> c.wf() && c.code@ == code@,
{
    if str_eq(code, "BAM") {
        Some(mk("BAM", 2, Locale::EnUs, 5, "Bosnia and Herzegovina Convertible Mark", "KM", true))
    } else if str_eq(code, "BBD") {
        Some(mk("BBD", 2, Locale::EnUs, 1, "Barbadian Dollar", "$", true))
    } else if str_eq(code, "BDT") {
        Some(mk("BDT", 2, Locale::EnIn, 1, "Bangladeshi Taka", "৳", true))
    } else if str_eq(code, "BGN") {
        Some(mk("BGN", 2, Locale::EnIn, 1, "Bulgarian Lev", "лв.", false))
    } else if str_eq(code, "BHD") {
        Some(mk("BHD", 3, Locale::EnUs, 5, "Bahraini Dinar", "د.ب", true))
    } else if str_eq(code, "BIF") {
        Some(mk("BIF", 0, Locale::EnUs, 100, "Burundian Franc", "Fr", false))
    } else if str_eq(code, "BMD") {
        Some(mk("BMD", 2, Locale::EnUs, 1, "Bermudian Dollar", "$", true))
    } else if str_eq(code, "BND") {
        Some(mk("BND", 2, Locale::EnUs, 1, "Brunei Dollar", "$", true))
    } else if str_eq(code, "BOB") {
        Some(mk("BOB", 2, Locale::EnUs, 10, "Bolivian Boliviano", "Bs.", true))
    } else if str_eq(code, "BRL") {
        Some(mk("BRL", 2, Locale::EnUs, 5, "Brazilian real", "R$", true))
    } else {
        None
    }
}

/// The codes this segment of the table recognises.
pub open spec fn is_code_bsd_to_clf(s: Seq<char>) -> bool {
    ||| s == ("BSD")@
    ||| s == ("BTN")@
    ||| s == ("BWP")@
    ||| s == ("BYN")@
    ||| s == ("BYR")@
    ||| s == ("BZD")@
    ||| s == ("CAD")@
    ||| s == ("CDF")@
    ||| s == ("CHF")@
    ||| s == ("CLF")@
}

/// Table segment BSD to CLF.
#[verifier::rlimit(50)]
fn find_bsd_to_clf(code: &str) -> (r: Option<Currency>)
    ensures
        r is Some <==> is_code_bsd_to_clf(code@),
        r matches Some(c) ==> c.wf() && c.code@ == code@,
{
    if str_eq(code, "BSD") {
        Some(mk("BSD", 2, Locale::EnUs, 1, "Bahamian Dollar", "$", true))
    } else if str_eq(code, "BTN") {
        Some(mk("BTN", 2, Locale::EnUs, 5, "Bhutanese Ngultrum", "Nu.", false))
    } else if str_eq(code, "BWP") {
        Some(mk("BWP", 2, Locale::EnUs, 5, "Botswana Pula", "P", true))
    } else if str_eq(code, "BYN") {
        Some(mk("BYN", 2, Locale::EnBy, 1, "Belarusian Ruble", "Br", false))
    } else if str_eq(code, "BYR") {
        Some(mk("BYR", 0, Locale::EnBy, 100, "Belarusian Ruble", "Br", false))
    } else if str_eq(code, "BZD") {
        Some(mk("BZD", 2, Locale::EnUs, 1, "Belize Dollar", "$", true))
    } else if str_eq(code, "CAD") {
        Some(mk("CAD", 2, Locale::EnUs, 5, "Canadian Dollar", "$", true))
    } else if str_eq(code, "CDF") {
        Some(mk("CDF", 2, Locale::EnUs, 1, "Congolese Franc", "Fr", false))
    } else if str_eq(code, "CHF") {
        Some(mk("CHF", 2, Locale::EnUs, 5, "Swiss Franc", "Fr", true))
    } else if str_eq(code, "CLF") {
        Some(mk("CLF", 4, Locale::EnEu, 5, "Unidad de Fomento", "UF", true))
    } else {
        None
    }
}

/// The codes this segment of the table recognises.
pub open spec fn is_code_clp_to_dkk(s: Seq<char>) -> bool {
    ||| s == ("CLP")@
    ||| s == ("CNY")@
    ||| s == ("COP")@
    ||| s == ("CRC")@
    ||| s == ("CUC")@
    ||| s == ("CUP")@
    ||| s == ("CVE")@
    ||| s == ("CZK")@
    ||| s == ("DJF")@
    ||| s == ("DKK")@
}

/// Table segment CLP to DKK.
#[verifier::rlimit(50)]
fn find_clp_to_dkk(code: &str) -> (r: Option<Currency>)
    ensures
        r is Some <==> is_code_clp_to_dkk(code@),
        r matches Some(c) ==> c.wf() && c.code@ == code@,
{
    if str_eq(code, "CLP") {
        Some(mk("CLP", 0, Locale::EnEu, 1, "Chilean Peso", "$", true))
    } else if str_eq(code, "CNY") {
        Some(mk("CNY", 2, Locale::EnUs, 1, "Chinese Renminbi Yuan", "¥", true))
    } else if str_eq(code, "COP") {
        Some(mk("COP", 2, Locale::EnEu, 20, "Colombian Peso", "$", true))
    } else if str_eq(code, "CRC") {
        Some(mk("CRC", 2, Locale::EnEu, 500, "Costa Rican Colón", "₡", true))
    } else if str_eq(code, "CUC") {
        Some(mk("CUC", 2, Locale::EnUs, 1, "Cuban Convertible Peso", "$", false))
    } else if str_eq(code, "CUP") {
        Some(mk("CUP", 2, Locale::EnUs, 1, "Cuban Peso", "$", true))
    } else if str_eq(code, "CVE") {
        Some(mk("CVE", 2, Locale::EnUs, 100, "Cape Verdean Escudo", "$", false))
    } else if str_eq(code, "CZK") {
        Some(mk("CZK", 2, Locale::EnBy, 100, "Czech Koruna", "Kč", false))
    } else if str_eq(code, "DJF") {
        Some(mk("DJF", 0, Locale::EnUs, 100, "Djiboutian Franc", "Fdj", false))
    } else if str_eq(code, "DKK") {
        Some(mk("DKK", 2, Locale::EnEu, 50, "Danish Krone", "kr.", false))
    } else {
        None
    }
}

/// The codes this segment of the table recognises.
pub open spec fn is_code_dop_to_gel(s: Seq<char>) -> bool {
    ||| s == ("DOP")@
    ||| s == ("DZD")@
    ||| s == ("EGP")@
    ||| s == ("ERN")@
    ||| s == ("ETB")@
    ||| s == ("EUR")@
    ||| s == ("FJD")@
    ||| s == ("FKP")@
    ||| s == ("GBP")@
    ||| s == ("GEL")@
}

/// Table segment DOP to GEL.
#[verifier::rlimit(50)]
fn find_dop_to_gel(code: &str) -> (r: Option<Currency>)
    ensures
        r is Some <==> is_code_dop_to_gel(code@),
        r matches Some(c) ==> c.wf() && c.code@ == code@,
{
    if str_eq(code, "DOP") {
        Some(mk("DOP", 2, Locale::EnUs, 100, "Dominican Peso", "$", true))
    } else if str_eq(code, "DZD") {
        Some(mk("DZD", 2, Locale::EnUs, 100, "Algerian Dinar", "د.ج", false))
    } else if str_eq(code, "EGP") {
        Some(mk("EGP", 2, Locale::EnUs, 25, "Egyptian Pound", "ج.م", true))
    } else if str_eq(code, "ERN") {
        Some(mk("ERN", 2, Locale::EnUs, 1, "Eritrean Nakfa", "Nfk", false))
    } else if str_eq(code, "ETB") {
        Some(mk("ETB", 2, Locale::EnUs, 1, "Ethiopian Birr", "Br", false))
    } else if str_eq(code, "EUR") {
        Some(mk("EUR", 2, Locale::EnEu, 1, "Euro", "€", true))
    } else if str_eq(code, "FJD") {
        Some(mk("FJD", 2, Locale::EnEu, 5, "Fijian Dollar", "$", false))
    } else if str_eq(code, "FKP") {
        Some(mk("FKP", 2, Locale::EnEu, 1, "Falkland Pound", "£", false))
    } else if str_eq(code, "GBP") {
        Some(mk("GBP", 2, Locale::EnUs, 1, "British Pound", "£", true))
    } else if str_eq(code, "GEL") {
        Some(mk("GEL", 2, Locale::EnUs, 1, "Georgian Lari", "ლ", false))
    } else {
        None
    }
}

/// The codes this segment of the table recognises.
pub open spec fn is_code_ghs_to_htg(s: Seq<char>) -> bool {
    ||| s == ("GHS")@
    ||| s == ("GIP")@
    ||| s == ("GMD")@
    ||| s == ("GNF")@
    ||| s == ("GTQ")@
    ||| s == ("GYD")@
    ||| s == ("HKD")@
    ||| s == ("HNL")@
    ||| s == ("HRK")@
    ||| s == ("HTG")@
}

/// Table segment GHS to HTG.
#[verifier::rlimit(50)]
fn find_ghs_to_htg(code: &str) -> (r: Option<Currency>)
    ensures
        r is Some <==> is_code_ghs_to_htg(code@),
        r matches Some(c) ==> c.wf() && c.code@ == code@,
{
    if str_eq(code, "GHS") {
        Some(mk("GHS", 2, Locale::EnUs, 1, "Ghanaian Cedi", "₵", true))
    } else if str_eq(code, "GIP") {
        Some(mk("GIP", 2, Locale::EnUs, 1, "Gibraltar Pound", "£", true))
    } else if str_eq(code, "GMD") {
        Some(mk("GMD", 2, Locale::EnUs, 1, "Gambian Dalasi", "D", false))
    } else if str_eq(code, "GNF") {
        Some(mk("GNF", 0, Locale::EnUs, 100, "Guinean Franc", "Fr", false))
    } else if str_eq(code, "GTQ") {
        Some(mk("GTQ", 2, Locale::EnUs, 1, "Guatemalan Quetzal", "Q", true))
    } else if str_eq(code, "GYD") {
        Some(mk("GYD", 2, Locale::EnUs, 100, "Guyanese Dollar", "$", false))
    } else if str_eq(code, "HKD") {
        Some(mk("HKD", 2, Locale::EnUs, 10, "Hong Kong Dollar", "$", true))
    } else if str_eq(code, "HNL") {
        Some(mk("HNL", 2, Locale::EnUs, 5, "Honduran Lempira", "L", true))
    } else if str_eq(code, "HRK") {
        Some(mk("HRK", 2, Locale::EnEu, 1, "Croatian Kuna", "kn", false))
    } else if str_eq(code, "HTG") {
        Some(mk("HTG", 2, Locale::EnUs, 5, "Haitian Gourde", "G", false))
    } else {
        None
    }
}

/// The codes this segment of the table recognises.
pub open spec fn is_code_huf_to_jpy(s: Seq<char>) -> bool {
    ||| s == ("HUF")@
    ||| s == ("IDR")@
    ||| s == ("ILS")@
    ||| s == ("INR")@
    ||| s == ("IQD")@
    ||| s == ("IRR")@
    ||| s == ("ISK")@
    ||| s == ("JMD")@
    ||| s == ("JOD")@
    ||| s == ("JPY")@
}

/// Table segment HUF to JPY.
#[verifier::rlimit(50)]
fn find_huf_to_jpy(code: &str) -> (r: Option<Currency>)
    ensures
        r is Some <==> is_code_huf_to_jpy(code@),
        r matches Some(c) ==> c.wf() && c.code@ == code@,
{
    if str_eq(code, "HUF") {
        Some(mk("HUF", 0, Locale::EnBy, 5, "Hungarian Forint", "Ft", false))
    } else if str_eq(code, "IDR") {
        Some(mk("IDR", 2, Locale::EnUs, 5000, "Indonesian Rupiah", "Rp", true))
    } else if str_eq(code, "ILS") {
        Some(mk("ILS", 2, Locale::EnUs, 10, "Israeli New Sheqel", "₪", true))
    } else if str_eq(code, "INR") {
        Some(mk("INR", 2, Locale::EnIn, 50, "Indian Rupee", "₹", true))
    } else if str_eq(code, "IQD") {
        Some(mk("IQD", 3, Locale::EnUs, 50000, "Iraqi Dinar", "ع.د", false))
    } else if str_eq(code, "IRR") {
        Some(mk("IRR", 2, Locale::EnUs, 5000, "Iranian Rial", "﷼", true))
    } else if str_eq(code, "ISK") {
        Some(mk("ISK", 0, Locale::EnEu, 1, "Icelandic Króna", "kr.", true))
    } else if str_eq(code, "JMD") {
        Some(mk("JMD", 2, Locale::EnUs, 1, "Jamaican Dollar", "$", true))
    } else if str_eq(code, "JOD") {
        Some(mk("JOD", 3, Locale::EnUs, 5, "Jordanian Dinar", "د.ا", true))
    } else if str_eq(code, "JPY") {
        Some(mk("JPY", 0, Locale::EnUs, 1, "Japanese Yen", "¥", true))
    } else {
        None
    }
}

/// The codes this segment of the table recognises.
pub open spec fn is_code_kes_to_lak(s: Seq<char>) -> bool {
    ||| s == ("KES")@
    ||| s == ("KGS")@
    ||| s == ("KHR")@
    ||| s == ("KMF")@
    ||| s == ("KPW")@
    ||| s == ("KRW")@
    ||| s == ("KWD")@
    ||| s == ("KYD")@
    ||| s == ("KZT")@
    ||| s == ("LAK")@
}

/// Table segment KES to LAK.
#[verifier::rlimit(50)]
fn find_kes_to_lak(code: &str) -> (r: Option<Currency>)
    ensures
        r is Some <==> is_code_kes_to_lak(code@),
        r matches Some(c) ==> c.wf() && c.code@ == code@,
{
    if str_eq(code, "KES") {
        Some(mk("KES", 2, Locale::EnUs, 50, "Kenyan Shilling", "KSh", true))
    } else if str_eq(code, "KGS") {
        Some(mk("KGS", 2, Locale::EnUs, 1, "Kyrgyzstani Som", "som", false))
    } else if str_eq(code, "KHR") {
        Some(mk("KHR", 2, Locale::EnUs, 5000, "Cambodian Riel", "៛", false))
    } else if str_eq(code, "KMF") {
        Some(mk("KMF", 0, Locale::EnUs, 100, "Comorian Franc", "Fr", false))
    } else if str_eq(code, "KPW") {
        Some(mk("KPW", 2, Locale::EnUs, 1, "North Korean Won", "₩", false))
    } else if str_eq(code, "KRW") {
        Some(mk("KRW", 0, Locale::EnUs, 1, "South Korean Won", "₩", true))
    } else if str_eq(code, "KWD") {
        Some(mk("KWD", 3, Locale::EnUs, 5, "Kuwaiti Dinar", "د.ك", true))
    } else if str_eq(code, "KYD") {
        Some(mk("KYD", 2, Locale::EnUs, 1, "Cayman Islands Dollar", "$", true))
    } else if str_eq(code, "KZT") {
        Some(mk("KZT", 2, Locale::EnUs, 100, "Kazakhstani Tenge", "₸", false))
    } else if str_eq(code, "LAK") {
        Some(mk("LAK", 2, Locale::EnUs, 10, "Lao Kip", "₭", false))
    } else {
        None
    }
}

/// The codes this segment of the table recognises.
pub open spec fn is_code_lbp_to_mmk(s: Seq<char>) -> bool {
    ||| s == ("LBP")@
    ||| s == ("LKR")@
    ||| s == ("LRD")@
    ||| s == ("LSL")@
    ||| s == ("LYD")@
    ||| s == ("MAD")@
    ||| s == ("MDL")@
    ||| s == ("MGA")@
    ||| s == ("MKD")@
    ||| s == ("MMK")@
}

/// Table segment LBP to MMK.
#[verifier::rlimit(50)]
fn find_lbp_to_mmk(code: &str) -> (r: Option<Currency>)
    ensures
        r is Some <==> is_code_lbp_to_mmk(code@),
        r matches Some(c) ==> c.wf() && c.code@ == code@,
{
    if str_eq(code, "LBP") {
        Some(mk("LBP", 2, Locale::EnUs, 25000, "Lebanese Pound", "ل.ل", true))
    } else if str_eq(code, "LKR") {
        Some(mk("LKR", 2, Locale::EnUs, 100, "Sri Lankan Rupee", "₨", false))
    } else if str_eq(code, "LRD") {
        Some(mk("LRD", 2, Locale::EnUs, 5, "Liberian Dollar", "$", false))
    } else if str_eq(code, "LSL") {
        Some(mk("LSL", 2, Locale::EnUs, 1, "Lesotho Loti", "L", false))
    } else if str_eq(code, "LYD") {
        Some(mk("LYD", 3, Locale::EnUs, 50, "Libyan Dinar", "ل.د", false))
    } else if str_eq(code, "MAD") {
        Some(mk("MAD", 2, Locale::EnUs, 1, "Moroccan Dirham", "د.م.", false))
    } else if str_eq(code, "MDL") {
        Some(mk("MDL", 2, Locale::EnUs, 1, "Moldovan Leu", "L", false))
    } else if str_eq(code, "MGA") {
        Some(mk("MGA", 1, Locale::EnUs, 1, "Malagasy Ariary", "Ar", true))
    } else if str_eq(code, "MKD") {
        Some(mk("MKD", 2, Locale::EnUs, 100, "Macedonian Denar", "ден", false))
    } else if str_eq(code, "MMK") {
        Some(mk("MMK", 2, Locale::EnUs, 50, "Myanmar Kyat", "K", false))
    } else {
        None
    }
}

/// The codes this segment of the table recognises.
pub open spec fn is_code_mnt_to_nad(s: Seq<char>) -> bool {
    ||| s == ("MNT")@
    ||| s == ("MOP")@
    ||| s == ("MRU")@
    ||| s == ("MUR")@
    ||| s == ("MVR")@
    ||| s == ("MWK")@
    ||| s == ("MXN")@
    ||| s == ("MYR")@
    ||| s == ("MZN")@
    ||| s == ("NAD")@
}

/// Table segment MNT to NAD.
#[verifier::rlimit(50)]
fn find_mnt_to_nad(code: &str) -> (r: Option<Currency>)
    ensures
        r is Some <==> is_code_mnt_to_nad(code@),
        r matches Some(c) ==> c.wf() && c.code@ == code@,
{
    if str_eq(code, "MNT") {
        Some(mk("MNT", 2, Locale::EnUs, 2000, "Mongolian Tögrög", "₮", false))
    } else if str_eq(code, "MOP") {
        Some(mk("MOP", 2, Locale::EnUs, 10, "Macanese Pataca", "P", false))
    } else if str_eq(code, "MRU") {
        Some(mk("MRU", 1, Locale::EnUs, 1, "Mauritanian Ouguiya", "UM", false))
    } else if str_eq(code, "MUR") {
        Some(mk("MUR", 2, Locale::EnUs, 100, "Mauritian Rupee", "₨", true))
    } else if str_eq(code, "MVR") {
        Some(mk("MVR", 2, Locale::EnUs, 100, "Maldivian Rufiyaa", "MVR", false))
    } else if str_eq(code, "MWK") {
        Some(mk("MWK", 2, Locale::EnUs, 1, "Malawian Kwacha", "MK", false))
    } else if str_eq(code, "MXN") {
        Some(mk("MXN", 2, Locale::EnUs, 5, "Mexican Peso", "$", true))
    } else if str_eq(code, "MYR") {
        Some(mk("MYR", 2, Locale::EnUs, 5, "Malaysian Ringgit", "RM", true))
    } else if str_eq(code, "MZN") {
        Some(mk("MZN", 2, Locale::EnUs, 1, "Mozambican Metical", "MTn", true))
    } else if str_eq(code, "NAD") {
        Some(mk("NAD", 2, Locale::EnUs, 5, "Namibian Dollar", "$", false))
    } else {
        None
    }
}

/// The codes this segment of the table recognises.
pub open spec fn is_code_ngn_to_php(s: Seq<char>) -> bool {
    ||| s == ("NGN")@
    ||| s == ("NIO")@
    ||| s == ("NOK")@
    ||| s == ("NPR")@
    ||| s == ("NZD")@
    ||| s == ("OMR")@
    ||| s == ("PAB")@
    ||| s == ("PEN")@
    ||| s == ("PGK")@
    ||| s == ("PHP")@
}

/// Table segment NGN to PHP.
#[verifier::rlimit(50)]
fn find_ngn_to_php(code: &str) -> (r: Option<Currency>)
    ensures
        r is Some <==> is_code_ngn_to_php(code@),
        r matches Some(c) ==> c.wf() && c.code@ == code@,
{
    if str_eq(code, "NGN") {
        Some(mk("NGN", 2, Locale::EnUs, 50, "Nigerian Naira", "₦", true))
    } else if str_eq(code, "NIO") {
        Some(mk("NIO", 2, Locale::EnUs, 5, "Nicaraguan Córdoba", "C$", true))
    } else if str_eq(code, "NOK") {
        Some(mk("NOK", 2, Locale::EnUs, 100, "Norwegian Krone", "kr", false))
    } else if str_eq(code, "NPR") {
        Some(mk("NPR", 2, Locale::EnUs, 1, "Nepalese Rupee", "रु", true))
    } else if str_eq(code, "NZD") {
        Some(mk("NZD", 2, Locale::EnUs, 10, "New Zealand Dollar", "$", true))
    } else if str_eq(code, "OMR") {
        Some(mk("OMR", 3, Locale::EnUs, 5, "Omani Rial", "ر.ع.", true))
    } else if str_eq(code, "PAB") {
        Some(mk("PAB", 2, Locale::EnUs, 1, "Panamanian Balboa", "B/.", true))
    } else if str_eq(code, "PEN") {
        Some(mk("PEN", 2, Locale::EnUs, 1, "Peruvian Sol", "S/", true))
    } else if str_eq(code, "PGK") {
        Some(mk("PGK", 2, Locale::EnUs, 5, "Papua New Guinean Kina", "K", false))
    } else if str_eq(code, "PHP") {
        Some(mk("PHP", 2, Locale::EnUs, 1, "Philippine Peso", "₱", true))
    } else {
        None
    }
}

/// The codes this segment of the table recognises.
pub open spec fn is_code_pkr_to_sar(s: Seq<char>) -> bool {
    ||| s == ("PKR")@
    ||| s == ("PLN")@
    ||| s == ("PYG")@
    ||| s == ("QAR")@
    ||| s == ("RON")@
    ||| s == ("ROL")@
    ||| s == ("RSD")@
    ||| s == ("RUB")@
    ||| s == ("RWF")@
    ||| s == ("SAR")@
}

/// Table segment PKR to SAR.
#[verifier::rlimit(50)]
fn find_pkr_to_sar(code: &str) -> (r: Option<Currency>)
    ensures
        r is Some <==> is_code_pkr_to_sar(code@),
        r matches Some(c) ==> c.wf() && c.code@ == code@,
{
    if str_eq(code, "PKR") {
        Some(mk("PKR", 2, Locale::EnUs, 100, "Pakistani Rupee", "₨", true))
    } else if str_eq(code, "PLN") {
        Some(mk("PLN", 2, Locale::EnBy, 1, "Polish Złoty", "zł", false))
    } else if str_eq(code, "PYG") {
        Some(mk("PYG", 0, Locale::EnBy, 5000, "Paraguayan Guaraní", "₲", true))
    } else if str_eq(code, "QAR") {
        Some(mk("QAR", 2, Locale::EnBy, 1, "Qatari Riyal", "ر.ق", false))
    } else if str_eq(code, "RON") {
        Some(mk("RON", 2, Locale::EnEu, 1, "Romanian Leu", "RON", false))
    } else if str_eq(code, "ROL") {
        Some(mk("ROL", 0, Locale::EnEu, 1, "Romanian Leu", "ROL", false))
    } else if str_eq(code, "RSD") {
        Some(mk("RSD", 2, Locale::EnUs, 100, "Serbian Dinar", "РСД", true))
    } else if str_eq(code, "RUB") {
        Some(mk("RUB", 2, Locale::EnEu, 1, "Russian Ruble", "₽", false))
    } else if str_eq(code, "RWF") {
        Some(mk("RWF", 0, Locale::EnUs, 100, "Rwandan Franc", "FRw", false))
    } else if str_eq(code, "SAR") {
        Some(mk("SAR", 2, Locale::EnUs, 5, "Saudi Riyal", "ر.س", true))
    } else {
        None
    }
}

/// The codes this segment of the table recognises.
pub open spec fn is_code_sbd_to_sos(s: Seq<char>) -> bool {
    ||| s == ("SBD")@
    ||| s == ("SCR")@
    ||| s == ("SDG")@
    ||| s == ("SEK")@
    ||| s == ("SGD")@
    ||| s == ("SHP")@
    ||| s == ("SKK")@
    ||| s == ("SLE")@
    ||| s == ("SLL")@
    ||| s == ("SOS")@
}

/// Table segment SBD to SOS.
#[verifier::rlimit(50)]
fn find_sbd_to_sos(code: &str) -> (r: Option<Currency>)
    ensures
        r is Some <==> is_code_sbd_to_sos(code@),
        r matches Some(c) ==> c.wf() && c.code@ == code@,
{
    if str_eq(code, "SBD") {
        Some(mk("SBD", 2, Locale::EnUs, 10, "Solomon Islands Dollar", "$", false))
    } else if str_eq(code, "SCR") {
        Some(mk("SCR", 2, Locale::EnUs, 1, "Seychellois Rupee", "₨", false))
    } else if str_eq(code, "SDG") {
        Some(mk("SDG", 2, Locale::EnUs, 1, "Sudanese Pound", "£", true))
    } else if str_eq(code, "SEK") {
        Some(mk("SEK", 2, Locale::EnBy, 100, "Swedish Krona", "kr", false))
    } else if str_eq(code, "SGD") {
        Some(mk("SGD", 2, Locale::EnUs, 1, "Singapore Dollar", "$", true))
    } else if str_eq(code, "SHP") {
        Some(mk("SHP", 2, Locale::EnUs, 1, "Saint Helenian Pound", "£", false))
    } else if str_eq(code, "SKK") {
        Some(mk("SKK", 2, Locale::EnUs, 50, "Slovak Koruna", "Sk", true))
    } else if str_eq(code, "SLE") {
        Some(mk("SLE", 2, Locale::EnUs, 1000, "Sierra Leonean Leone", "Le", false))
    } else if str_eq(code, "SLL") {
        Some(mk("SLL", 2, Locale::EnUs, 1000, "Sierra Leonean Leone", "Le", false))
    } else if str_eq(code, "SOS") {
        Some(mk("SOS", 2, Locale::EnUs, 1, "Somali Shilling", "Sh", false))
    } else {
        None
    }
}

/// The codes this segment of the table recognises.
pub open spec fn is_code_srd_to_tmt(s: Seq<char>) -> bool {
    ||| s == ("SRD")@
    ||| s == ("SSP")@
    ||| s == ("STD")@
    ||| s == ("STN")@
    ||| s == ("SVC")@
    ||| s == ("SYP")@
    ||| s == ("SZL")@
    ||| s == ("THB")@
    ||| s == ("TJS")@
    ||| s == ("TMT")@
}

/// Table segment SRD to TMT.
#[verifier::rlimit(50)]
fn find_srd_to_tmt(code: &str) -> (r: Option<Currency>)
    ensures
        r is Some <==> is_code_srd_to_tmt(code@),
        r matches Some(c) ==> c.wf() && c.code@ == code@,
{
    if str_eq(code, "SRD") {
        Some(mk("SRD", 2, Locale::EnUs, 1, "Surinamese Dollar", "$", false))
    } else if str_eq(code, "SSP") {
        Some(mk("SSP", 2, Locale::EnUs, 5, "South Sudanese Pound", "£", false))
    } else if str_eq(code, "STD") {
        Some(mk("STD", 2, Locale::EnUs, 10000, "São Tomé and Príncipe Dobra", "Db", false))
    } else if str_eq(code, "STN") {
        Some(mk("STN", 2, Locale::EnUs, 10, "São Tomé and Príncipe Dobra", "Db", false))
    } else if str_eq(code, "SVC") {
        Some(mk("SVC", 2, Locale::EnUs, 1, "Salvadoran Colón", "₡", true))
    } else if str_eq(code, "SYP") {
        Some(mk("SYP", 2, Locale::EnUs, 100, "Syrian Pound", "£S", false))
    } else if str_eq(code, "SZL") {
        Some(mk("SZL", 2, Locale::EnUs, 1, "Swazi Lilangeni", "E", true))
    } else if str_eq(code, "THB") {
        Some(mk("THB", 2, Locale::EnUs, 1, "Thai Baht", "฿", true))
    } else if str_eq(code, "TJS") {
        Some(mk("TJS", 2, Locale::EnUs, 1, "Tajikistani Somoni", "ЅМ", false))
    } else if str_eq(code, "TMT") {
        Some(mk("TMT", 2, Locale::EnUs, 1, "Turkmenistani Manat", "T", false))
    } else {
        None
    }
}

/// The codes this segment of the table recognises.
pub open spec fn is_code_tnd_to_uyu(s: Seq<char>) -> bool {
    ||| s == ("TND")@
    ||| s == ("TOP")@
    ||| s == ("TRY")@
    ||| s == ("TTD")@
    ||| s == ("TWD")@
    ||| s == ("TZS")@
    ||| s == ("UAH")@
    ||| s == ("UGX")@
    ||| s == ("USD")@
    ||| s == ("UYU")@
}

/// Table segment TND to UYU.
#[verifier::rlimit(50)]
fn find_tnd_to_uyu(code: &str) -> (r: Option<Currency>)
    ensures
        r is Some <==> is_code_tnd_to_uyu(code@),
        r matches Some(c) ==> c.wf() && c.code@ == code@,
{
    if str_eq(code, "TND") {
        Some(mk("TND", 3, Locale::EnUs, 10, "Tunisian Dinar", "د.ت", false))
    } else if str_eq(code, "TOP") {
        Some(mk("TOP", 2, Locale::EnUs, 1, "Tongan Paʻanga", "T$", true))
    } else if str_eq(code, "TRY") {
        Some(mk("TRY", 2, Locale::EnEu, 1, "Turkish Lira", "₺", true))
    } else if str_eq(code, "TTD") {
        Some(mk("TTD", 2, Locale::EnUs, 1, "Trinidad and Tobago Dollar", "$", false))
    } else if str_eq(code, "TWD") {
        Some(mk("TWD", 2, Locale::EnUs, 50, "New Taiwan Dollar", "$", true))
    } else if str_eq(code, "TZS") {
        Some(mk("TZS", 2, Locale::EnUs, 5000, "Tanzanian Shilling", "Sh", true))
    } else if str_eq(code, "UAH") {
        Some(mk("UAH", 2, Locale::EnUs, 1, "Ukrainian Hryvnia", "₴", false))
    } else if str_eq(code, "UGX") {
        Some(mk("UGX", 0, Locale::EnUs, 1000, "Ugandan Shilling", "USh", false))
    } else if str_eq(code, "USD") {
        Some(mk("USD", 2, Locale::EnUs, 1, "United States Dollar", "$", true))
    } else if str_eq(code, "UYU") {
        Some(mk("UYU", 2, Locale::EnEu, 100, "Uruguayan Peso", "$U", true))
    } else {
        None
    }
}

/// The codes this segment of the table recognises.
pub open spec fn is_code_uyw_to_xba(s: Seq<char>) -> bool {
    ||| s == ("UYW")@
    ||| s == ("UZS")@
    ||| s == ("VES")@
    ||| s == ("VND")@
    ||| s == ("VUV")@
    ||| s == ("WST")@
    ||| s == ("XAF")@
    ||| s == ("XAG")@
    ||| s == ("XAU")@
    ||| s == ("XBA")@
}

/// Table segment UYW to XBA.
#[verifier::rlimit(50)]
fn find_uyw_to_xba(code: &str) -> (r: Option<Currency>)
    ensures
        r is Some <==> is_code_uyw_to_xba(code@),
        r matches Some(c) ==> c.wf() && c.code@ == code@,
{
    if str_eq(code, "UYW") {
        Some(mk("UYW", 4, Locale::EnEu, 1000, "Unidad Previsional", "UP", true))
    } else if str_eq(code, "UZS") {
        Some(mk("UZS", 2, Locale::EnUs, 100, "Uzbekistan Som", "so'm", false))
    } else if str_eq(code, "VES") {
        Some(mk("VES", 2, Locale::EnEu, 1, "Venezuelan Bolívar Soberano", "Bs", true))
    } else if str_eq(code, "VND") {
        Some(mk("VND", 0, Locale::EnEu, 100, "Vietnamese Đồng", "₫", false))
    } else if str_eq(code, "VUV") {
        Some(mk("VUV", 0, Locale::EnUs, 1, "Vanuatu Vatu", "Vt", true))
    } else if str_eq(code, "WST") {
        Some(mk("WST", 2, Locale::EnUs, 10, "Samoan Tala", "T", false))
    } else if str_eq(code, "XAF") {
        Some(mk("XAF", 0, Locale::EnUs, 100, "Central African Cfa Franc", "CFA", false))
    } else if str_eq(code, "XAG") {
        Some(mk("XAG", 0, Locale::EnUs, 100, "Silver (Troy Ounce)", "oz t", false))
    } else if str_eq(code, "XAU") {
        Some(mk("XAU", 0, Locale::EnUs, 100, "Gold (Troy Ounce)", "oz t", false))
    } else if str_eq(code, "XBA") {
        Some(mk("XBA", 0, Locale::EnUs, 100, "European Composite Unit", "", false))
    } else {
        None
    }
}

/// The codes this segment of the table recognises.
pub open spec fn is_code_xbb_to_xts(s: Seq<char>) -> bool {
    ||| s == ("XBB")@
    ||| s == ("XBC")@
    ||| s == ("XBD")@
    ||| s == ("XCD")@
    ||| s == ("XDR")@
    ||| s == ("XOF")@
    ||| s == ("XPD")@
    ||| s == ("XPF")@
    ||| s == ("XPT")@
    ||| s == ("XTS")@
}

/// Table segment XBB to XTS.
#[verifier::rlimit(50)]
fn find_xbb_to_xts(code: &str) -> (r: Option<Currency>)
    ensures
        r is Some <==> is_code_xbb_to_xts(code@),
        r matches Some(c) ==> c.wf() && c.code@ == code@,
{
    if str_eq(code, "XBB") {
        Some(mk("XBB", 0, Locale::EnUs, 100, "European Monetary Unit", "", false))
    } else if str_eq(code, "XBC") {
        Some(mk("XBC", 0, Locale::EnUs, 100, "European Unit of Account 9", "", false))
    } else if str_eq(code, "XBD") {
        Some(mk("XBD", 0, Locale::EnUs, 100, "European Unit of Account 17", "", false))
    } else if str_eq(code, "XCD") {
        Some(mk("XCD", 2, Locale::EnUs, 1, "East Caribbean Dollar", "$", true))
    } else if str_eq(code, "XDR") {
        Some(mk("XDR", 0, Locale::EnUs, 100, "Special Drawing Rights", "SDR", false))
    } else if str_eq(code, "XOF") {
        Some(mk("XOF", 0, Locale::EnUs, 100, "West African Cfa Franc", "Fr", false))
    } else if str_eq(code, "XPD") {
        Some(mk("XPD", 0, Locale::EnUs, 100, "Palladium", "oz t", false))
    } else if str_eq(code, "XPF") {
        Some(mk("XPF", 0, Locale::EnUs, 100, "Cfp Franc", "Fr", false))
    } else if str_eq(code, "XPT") {
        Some(mk("XPT", 0, Locale::EnUs, 100, "Platinum", "oz t", false))
    } else if str_eq(code, "XTS") {
        Some(mk("XTS", 0, Locale::EnUs, 100, "Codes specifically reserved for testing purposes", "oz t", false))
    } else {
        None
    }
}

/// The codes this segment of the table recognises.
pub open spec fn is_code_yer_to_zwl(s: Seq<char>) -> bool {
    ||| s == ("YER")@
    ||| s == ("ZAR")@
    ||| s == ("ZMK")@
    ||| s == ("ZMW")@
    ||| s == ("ZWL")@
}

/// Table segment YER to ZWL.
#[verifier::rlimit(50)]
fn find_yer_to_zwl(code: &str) -> (r: Option<Currency>)
    ensures
        r is Some <==> is_code_yer_to_zwl(code@),
        r matches Some(c) ==> c.wf() && c.code@ == code@,
{
    if str_eq(code, "YER") {
        Some(mk("YER", 2, Locale::EnUs, 100, "Yemeni Rial", "﷼", false))
    } else if str_eq(code, "ZAR") {
        Some(mk("ZAR", 2, Locale::EnUs, 10, "South African Rand", "R", true))
    } else if str_eq(code, "ZMK") {
        Some(mk("ZMK", 2, Locale::EnUs, 5, "Zambian Kwacha", "ZK", false))
    } else if str_eq(code, "ZMW") {
        Some(mk("ZMW", 2, Locale::EnUs, 5, "Zambian Kwacha", "K", true))
    } else if str_eq(code, "ZWL") {
        Some(mk("ZWL", 2, Locale::EnUs, 1, "Zimbabwe Dollar", "Z$", true))
    } else {
        None
    }
}

/// The codes of every ISO currency in the table.
pub open spec fn is_iso_code(s: Seq<char>) -> bool {
    ||| is_code_aed_to_azn(s)
    ||| is_code_bam_to_brl(s)
    ||| is_code_bsd_to_clf(s)
    ||| is_code_clp_to_dkk(s)
    ||| is_code_dop_to_gel(s)
    ||| is_code_ghs_to_htg(s)
    ||| is_code_huf_to_jpy(s)
    ||| is_code_kes_to_lak(s)
    ||| is_code_lbp_to_mmk(s)
    ||| is_code_mnt_to_nad(s)
    ||| is_code_ngn_to_php(s)
    ||| is_code_pkr_to_sar(s)
    ||| is_code_sbd_to_sos(s)
    ||| is_code_srd_to_tmt(s)
    ||| is_code_tnd_to_uyu(s)
    ||| is_code_uyw_to_xba(s)
    ||| is_code_xbb_to_xts(s)
    ||| is_code_yer_to_zwl(s)
}

/// Looks an ISO currency up by its code.
#[verifier::rlimit(50)]
pub fn find_iso(code: &str) -> (r: Option<Currency>)
    ensures
        r is Some <==> is_iso_code(code@),
        r matches Some(c) ==> c.wf() && c.code@ == code@,
{
    let mut r = find_aed_to_azn(code);
    if r.is_none() {
        r = find_bam_to_brl(code);
    }
    if r.is_none() {
        r = find_bsd_to_clf(code);
    }
    if r.is_none() {
        r = find_clp_to_dkk(code);
    }
    if r.is_none() {
        r = find_dop_to_gel(code);
    }
    if r.is_none() {
        r = find_ghs_to_htg(code);
    }
    if r.is_none() {
        r = find_huf_to_jpy(code);
    }
    if r.is_none() {
        r = find_kes_to_lak(code);
    }
    if r.is_none() {
        r = find_lbp_to_mmk(code);
    }
    if r.is_none() {
        r = find_mnt_to_nad(code);
    }
    if r.is_none() {
        r = find_ngn_to_php(code);
    }
    if r.is_none() {
        r = find_pkr_to_sar(code);
    }
    if r.is_none() {
        r = find_sbd_to_sos(code);
    }
    if r.is_none() {
        r = find_srd_to_tmt(code);
    }
    if r.is_none() {
        r = find_tnd_to_uyu(code);
    }
    if r.is_none() {
        r = find_uyw_to_xba(code);
    }
    if r.is_none() {
        r = find_xbb_to_xts(code);
    }
    if r.is_none() {
        r = find_yer_to_zwl(code);
    }
    r
}

/// The USD descriptor from the table.
pub fn usd() -> (c: Currency)
    ensures
        c.wf() && c.code@ == ("USD")@,
{
    match find_iso("USD") {
        Some(c) => c,
        None => vstd::pervasive::unreached(),
    }
}

/// The EUR descriptor from the table.
pub fn eur() -> (c: Currency)
    ensures
        c.wf() && c.code@ == ("EUR")@,
{
    match find_iso("EUR") {
        Some(c) => c,
        None => vstd::pervasive::unreached(),
    }
}

/// The GBP descriptor from the table.
pub fn gbp() -> (c: Currency)
    ensures
        c.wf() && c.code@ == ("GBP")@,
{
    match find_iso("GBP") {
        Some(c) => c,
        None => vstd::pervasive::unreached(),
    }
}

/// The INR descriptor from the table.
pub fn inr() -> (c: Currency)
    ensures
        c.wf() && c.code@ == ("INR")@,
{
    match find_iso("INR") {
        Some(c) => c,
        None => vstd::pervasive::unreached(),
    }
}

/// The BHD descriptor from the table.
pub fn bhd() -> (c: Currency)
    ensures
        c.wf() && c.code@ == ("BHD")@,
{
    match find_iso("BHD") {
        Some(c) => c,
        None => vstd::pervasive::unreached(),
    }
}

/// The AED descriptor from the table.
pub fn aed() -> (c: Currency)
    ensures
        c.wf() && c.code@ == ("AED")@,
{
    match find_iso("AED") {
        Some(c) => c,
        None => vstd::pervasive::unreached(),
    }
}

} // verus!
