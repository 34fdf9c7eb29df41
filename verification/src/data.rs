//! The standard country-code dataset and its loader.
//!
//! The reference records are held as one compact text: records separated
//! by `;`, fields by `:`, each record being display name, dial code
//! (with a leading `+`) and ISO region code.  A verified splitter turns
//! the text into rows, and `CountryCodeTable::build` strips, de-duplicates
//! and orders them.

use vstd::prelude::*;
use crate::table::{entry_views, table_from_rows, CountryCodeTable, CountryEntry, CountryInfo, EntryModel};
use crate::text::push_char;

verus! {

/// The pieces of `s` between occurrences of `sep`: one more piece than
/// there are separators, in order, separators dropped.
pub open spec fn spec_split(s: Seq<char>, sep: char) -> Seq<Seq<char>>
    decreases s.len(),
{
    if s.len() == 0 {
        seq![Seq::<char>::empty()]
    } else if s[0] == sep {
        seq![Seq::<char>::empty()] + spec_split(s.skip(1), sep)
    } else {
        let rest = spec_split(s.skip(1), sep);
        seq![seq![s[0]] + rest[0]] + rest.skip(1)
    }
}

/// A split always yields at least one piece.
pub proof fn lemma_split_nonempty(s: Seq<char>, sep: char)
    ensures
        spec_split(s, sep).len() >= 1,
    decreases s.len(),
{
    if s.len() > 0 {
        lemma_split_nonempty(s.skip(1), sep);
    }
}

/// The views of a sequence of strings.
pub open spec fn str_views(v: Seq<String>) -> Seq<Seq<char>> {
    v.map_values(|x: String| x@)
}

/// The first piece extended to the left by `prefix`.
pub open spec fn cons_first(prefix: Seq<char>, parts: Seq<Seq<char>>) -> Seq<Seq<char>> {
    seq![prefix + parts[0]] + parts.skip(1)
}

/// Splits `s` at every occurrence of `sep`.
pub(crate) fn split_str(s: &str, sep: char) -> (out: Vec<String>)
    ensures
        str_views(out@) == spec_split(s@, sep),
{
    let len = s.unicode_len();
    let mut out: Vec<String> = Vec::new();
    let mut cur = String::new();
    let mut i: usize = 0;
    proof {
        assert(s@.skip(0) =~= s@);
        lemma_split_nonempty(s@, sep);
        assert(spec_split(s@, sep) =~~= str_views(out@) + cons_first(
            cur@,
            spec_split(s@.skip(0), sep),
        ));
    }
    while i < len
        invariant
            0 <= i <= len == s@.len(),
            spec_split(s@, sep) == str_views(out@) + cons_first(
                cur@,
                spec_split(s@.skip(i as int), sep),
            ),
        decreases len - i,
    {
        let ghost tail = spec_split(s@.skip(i as int), sep);
        let ghost tail2 = spec_split(s@.skip(i + 1), sep);
        proof {
            lemma_split_nonempty(s@.skip(i as int), sep);
            lemma_split_nonempty(s@.skip(i + 1), sep);
            assert(s@.skip(i as int)[0] == s@[i as int]);
            assert(s@.skip(i as int).skip(1) =~= s@.skip(i + 1));
        }
        let c = s.get_char(i);
        if c == sep {
            let ghost old_out = out@;
            let ghost old_cur = cur@;
            proof {
                assert(tail =~~= seq![Seq::<char>::empty()] + tail2);
            }
            out.push(cur);
            cur = String::new();
            proof {
                assert(str_views(out@) =~~= str_views(old_out) + seq![old_cur]);
                assert(old_cur + tail[0] =~= old_cur);
                assert(str_views(old_out) + cons_first(old_cur, tail) =~~= str_views(out@)
                    + cons_first(cur@, tail2)) by {
                    assert(cons_first(old_cur, tail) =~~= seq![old_cur] + tail2);
                    assert(cons_first(cur@, tail2) =~~= seq![
                        Seq::<char>::empty() + tail2[0]] + tail2.skip(1));
                    assert(Seq::<char>::empty() + tail2[0] =~= tail2[0]);
                    assert(seq![tail2[0]] + tail2.skip(1) =~~= tail2);
                }
            }
        } else {
            let ghost old_cur = cur@;
            proof {
                assert(tail =~~= seq![seq![s@[i as int]] + tail2[0]] + tail2.skip(1));
            }
            push_char(&mut cur, c);
            proof {
                assert(cons_first(old_cur, tail) =~~= cons_first(cur@, tail2)) by {
                    assert(old_cur + tail[0] =~= cur@ + tail2[0]);
                }
            }
        }
        i = i + 1;
    }
    proof {
        assert(s@.skip(len as int) =~= Seq::<char>::empty());
        assert(spec_split(s@.skip(len as int), sep) =~~= seq![Seq::<char>::empty()]);
    }
    let ghost old_out = out@;
    let ghost last = cur@;
    out.push(cur);
    proof {
        assert(str_views(out@) =~~= str_views(old_out) + seq![last]);
        assert(last + Seq::<char>::empty() =~= last);
        assert(spec_split(s@, sep) =~~= str_views(out@));
    }
    out
}

/// The rows a record list yields: every record with exactly three fields
/// becomes an entry of (name, dial code, ISO code); others are dropped.
pub open spec fn rows_from_records(recs: Seq<Seq<char>>) -> Seq<EntryModel>
    decreases recs.len(),
{
    if recs.len() == 0 {
        Seq::empty()
    } else {
        let prior = rows_from_records(recs.drop_last());
        let f = spec_split(recs.last(), ':');
        if f.len() == 3 {
            prior.push(EntryModel { dial: f[1], name: f[0], iso: f[2] })
        } else {
            prior
        }
    }
}

/// The rows encoded in a dataset text.
pub open spec fn spec_rows(data: Seq<char>) -> Seq<EntryModel> {
    rows_from_records(spec_split(data, ';'))
}

/// Parses a dataset text into raw table rows.
pub(crate) fn parse_rows(data: &str) -> (rows: Vec<CountryEntry>)
    ensures
        entry_views(rows@) == spec_rows(data@),
{
    let recs = split_str(data, ';');
    let ghost rv = str_views(recs@);
    let n = recs.len();
    let mut rows: Vec<CountryEntry> = Vec::new();
    let mut j: usize = 0;
    proof {
        assert(entry_views(rows@) =~= rows_from_records(rv.take(0)));
    }
    while j < n
        invariant
            0 <= j <= n == recs@.len(),
            rv == str_views(recs@),
            entry_views(rows@) == rows_from_records(rv.take(j as int)),
        decreases n - j,
    {
        let ghost old_rows = rows@;
        proof {
            assert(rv.take(j + 1).drop_last() =~= rv.take(j as int));
            assert(rv.take(j + 1).last() == rv[j as int]);
            assert(rv[j as int] == recs@[j as int]@);
        }
        let mut fields = split_str(recs[j].as_str(), ':');
        let ghost fv = spec_split(rv[j as int], ':');
        assert(str_views(fields@) == fv);
        if fields.len() == 3 {
            let iso = match fields.pop() {
                Some(x) => x,
                None => {
                    return rows;
                },
            };
            let dial = match fields.pop() {
                Some(x) => x,
                None => {
                    return rows;
                },
            };
            let name = match fields.pop() {
                Some(x) => x,
                None => {
                    return rows;
                },
            };
            assert(name@ == fv[0] && dial@ == fv[1] && iso@ == fv[2]);
            let entry = CountryEntry { dial_code: dial, info: CountryInfo { name, iso_code: iso } };
            rows.push(entry);
            proof {
                assert(entry_views(rows@) =~= rows_from_records(rv.take(j + 1)));
            }
        } else {
            assert(entry_views(rows@) =~= rows_from_records(rv.take(j + 1)));
        }
        j = j + 1;
    }
    proof {
        assert(rv.take(n as int) =~= rv);
    }
    rows
}

/// The mathematical value of the standard country-code table.
pub open spec fn spec_standard_table() -> Seq<EntryModel> {
    table_from_rows(spec_rows(spec_standard_data()))
}

impl CountryCodeTable {
    /// Builds the standard table from the reference dataset.
    pub fn standard() -> (t: CountryCodeTable)
        ensures
            t@ == spec_standard_table(),
            t.wf(),
    {
        let rows = parse_rows(standard_data());
        CountryCodeTable::build(rows)
    }
}


/// The reference dataset: display name, `+`-prefixed dial code and ISO
/// region code per record.
pub open spec fn spec_standard_data() -> Seq<char> {
    "Afghanistan:+93:AF;Aland Islands:+358:AX;Albania:+355:AL;Algeria:+213:DZ;American Samoa:+1684:AS;Andorra:+376:AD;Angola:+244:AO;Anguilla:+1264:AI;Antarctica:+672:AQ;Antigua and Barbuda:+1268:AG;Argentina:+54:AR;Armenia:+374:AM;Aruba:+297:AW;Australia:+61:AU;Austria:+43:AT;Azerbaijan:+994:AZ;Bahamas:+1242:BS;Bahrain:+973:BH;Bangladesh:+880:BD;Barbados:+1246:BB;Belarus:+375:BY;Belgium:+32:BE;Belize:+501:BZ;Benin:+229:BJ;Bermuda:+1441:BM;Bhutan:+975:BT;Bolivia:+591:BO;Bosnia and Herzegovina:+387:BA;Botswana:+267:BW;Brazil:+55:BR;British Indian Ocean Territory:+246:IO;Brunei Darussalam:+673:BN;Bulgaria:+359:BG;Burkina Faso:+226:BF;Burundi:+257:BI;Cambodia:+855:KH;Cameroon:+237:CM;Canada:+1:CA;Cape Verde:+238:CV;Cayman Islands:+1345:KY;Central African Republic:+236:CF;Chad:+235:TD;Chile:+56:CL;China:+86:CN;Christmas Island:+61:CX;Cocos (Keeling) Islands:+61:CC;Colombia:+57:CO;Comoros:+269:KM;Congo:+242:CG;Congo, The Democratic Republic of the:+243:CD;Cook Islands:+682:CK;Costa Rica:+506:CR;Cote d'Ivoire:+225:CI;Croatia:+385:HR;Cuba:+53:CU;Cyprus:+357:CY;Czech Republic:+420:CZ;Denmark:+45:DK;Djibouti:+253:DJ;Dominica:+1767:DM;Dominican Republic:+1849:DO;Ecuador:+593:EC;Egypt:+20:EG;El Salvador:+503:SV;Equatorial Guinea:+240:GQ;Eritrea:+291:ER;Estonia:+372:EE;Ethiopia:+251:ET;Falkland Islands (Malvinas):+500:FK;Faroe Islands:+298:FO;Fiji:+679:FJ;Finland:+358:FI;France:+33:FR;French Guiana:+594:GF;French Polynesia:+689:PF;Gabon:+241:GA;Gambia:+220:GM;Georgia:+995:GE;Germany:+49:DE;Ghana:+233:GH;Gibraltar:+350:GI;Greece:+30:GR;Greenland:+299:GL;Grenada:+1473:GD;Guadeloupe:+590:GP;Guam:+1671:GU;Guatemala:+502:GT;Guernsey:+44:GG;Guinea:+224:GN;Guinea-Bissau:+245:GW;Guyana:+592:GY;Haiti:+509:HT;Holy See (Vatican City State):+379:VA;Honduras:+504:HN;Hong Kong:+852:HK;Hungary:+36:HU;Iceland:+354:IS;India:+91:IN;Indonesia:+62:ID;Iran:+98:IR;Iraq:+964:IQ;Ireland:+353:IE;Isle of Man:+44:IM;Israel:+972:IL;Italy:+39:IT;Jamaica:+1876:JM;Japan:+81:JP;Jersey:+44:JE;Jordan:+962:JO;Kazakhstan:+7:KZ;Kenya:+254:KE;Kiribati:+686:KI;Korea, Democratic People's Republic of:+850:KP;Korea, Republic of:+82:KR;Kuwait:+965:KW;Kyrgyzstan:+996:KG;Lao People's Democratic Republic:+856:LA;Latvia:+371:LV;Lebanon:+961:LB;Lesotho:+266:LS;Liberia:+231:LR;Libya:+218:LY;Liechtenstein:+423:LI;Lithuania:+370:LT;Luxembourg:+352:LU;Macao:+853:MO;Macedonia:+389:MK;Madagascar:+261:MG;Malawi:+265:MW;Malaysia:+60:MY;Maldives:+960:MV;Mali:+223:ML;Malta:+356:MT;Marshall Islands:+692:MH;Martinique:+596:MQ;Mauritania:+222:MR;Mauritius:+230:MU;Mayotte:+262:YT;Mexico:+52:MX;Micronesia:+691:FM;Moldova:+373:MD;Monaco:+377:MC;Mongolia:+976:MN;Montenegro:+382:ME;Montserrat:+1664:MS;Morocco:+212:MA;Mozambique:+258:MZ;Myanmar:+95:MM;Namibia:+264:NA;Nauru:+674:NR;Nepal:+977:NP;Netherlands:+31:NL;New Caledonia:+687:NC;New Zealand:+64:NZ;Nicaragua:+505:NI;Niger:+227:NE;Nigeria:+234:NG;Niue:+683:NU;Norfolk Island:+672:NF;Northern Mariana Islands:+1670:MP;Norway:+47:NO;Oman:+968:OM;Pakistan:+92:PK;Palau:+680:PW;Palestinian Territory:+970:PS;Panama:+507:PA;Papua New Guinea:+675:PG;Paraguay:+595:PY;Peru:+51:PE;Philippines:+63:PH;Pitcairn:+872:PN;Poland:+48:PL;Portugal:+351:PT;Puerto Rico:+1939:PR;Qatar:+974:QA;Reunion:+262:RE;Romania:+40:RO;Russia:+7:RU;Rwanda:+250:RW;Saint Barthelemy:+590:BL;Saint Helena:+290:SH;Saint Kitts and Nevis:+1869:KN;Saint Lucia:+1758:LC;Saint Martin:+590:MF;Saint Pierre and Miquelon:+508:PM;Saint Vincent and the Grenadines:+1784:VC;Samoa:+685:WS;San Marino:+378:SM;Sao Tome and Principe:+239:ST;Saudi Arabia:+966:SA;Senegal:+221:SN;Serbia:+381:RS;Seychelles:+248:SC;Sierra Leone:+232:SL;Singapore:+65:SG;Slovakia:+421:SK;Slovenia:+386:SI;Solomon Islands:+677:SB;Somalia:+252:SO;South Africa:+27:ZA;South Georgia and the South Sandwich Islands:+500:GS;Spain:+34:ES;Sri Lanka:+94:LK;Sudan:+249:SD;Suriname:+597:SR;Svalbard and Jan Mayen:+47:SJ;Swaziland:+268:SZ;Sweden:+46:SE;Switzerland:+41:CH;Syrian Arab Republic:+963:SY;Taiwan:+886:TW;Tajikistan:+992:TJ;Tanzania:+255:TZ;Thailand:+66:TH;Timor-Leste:+670:TL;Togo:+228:TG;Tokelau:+690:TK;Tonga:+676:TO;Trinidad and Tobago:+1868:TT;Tunisia:+216:TN;Turkey:+90:TR;Turkmenistan:+993:TM;Turks and Caicos Islands:+1649:TC;Tuvalu:+688:TV;Uganda:+256:UG;Ukraine:+380:UA;United Arab Emirates:+971:AE;United Kingdom:+44:GB;United States:+1:US;Uruguay:+598:UY;Uzbekistan:+998:UZ;Vanuatu:+678:VU;Venezuela:+58:VE;Viet Nam:+84:VN;Virgin Islands, British:+1284:VG;Virgin Islands, U.S.:+1340:VI;Wallis and Futuna:+681:WF;Western Sahara:+212:EH;Yemen:+967:YE;Zambia:+260:ZM;Zimbabwe:+263:ZW"@
}

/// The reference dataset as a string slice.
fn standard_data() -> (s: &'static str)
    ensures
        s@ == spec_standard_data(),
{
    "Afghanistan:+93:AF;Aland Islands:+358:AX;Albania:+355:AL;Algeria:+213:DZ;American Samoa:+1684:AS;Andorra:+376:AD;Angola:+244:AO;Anguilla:+1264:AI;Antarctica:+672:AQ;Antigua and Barbuda:+1268:AG;Argentina:+54:AR;Armenia:+374:AM;Aruba:+297:AW;Australia:+61:AU;Austria:+43:AT;Azerbaijan:+994:AZ;Bahamas:+1242:BS;Bahrain:+973:BH;Bangladesh:+880:BD;Barbados:+1246:BB;Belarus:+375:BY;Belgium:+32:BE;Belize:+501:BZ;Benin:+229:BJ;Bermuda:+1441:BM;Bhutan:+975:BT;Bolivia:+591:BO;Bosnia and Herzegovina:+387:BA;Botswana:+267:BW;Brazil:+55:BR;British Indian Ocean Territory:+246:IO;Brunei Darussalam:+673:BN;Bulgaria:+359:BG;Burkina Faso:+226:BF;Burundi:+257:BI;Cambodia:+855:KH;Cameroon:+237:CM;Canada:+1:CA;Cape Verde:+238:CV;Cayman Islands:+1345:KY;Central African Republic:+236:CF;Chad:+235:TD;Chile:+56:CL;China:+86:CN;Christmas Island:+61:CX;Cocos (Keeling) Islands:+61:CC;Colombia:+57:CO;Comoros:+269:KM;Congo:+242:CG;Congo, The Democratic Republic of the:+243:CD;Cook Islands:+682:CK;Costa Rica:+506:CR;Cote d'Ivoire:+225:CI;Croatia:+385:HR;Cuba:+53:CU;Cyprus:+357:CY;Czech Republic:+420:CZ;Denmark:+45:DK;Djibouti:+253:DJ;Dominica:+1767:DM;Dominican Republic:+1849:DO;Ecuador:+593:EC;Egypt:+20:EG;El Salvador:+503:SV;Equatorial Guinea:+240:GQ;Eritrea:+291:ER;Estonia:+372:EE;Ethiopia:+251:ET;Falkland Islands (Malvinas):+500:FK;Faroe Islands:+298:FO;Fiji:+679:FJ;Finland:+358:FI;France:+33:FR;French Guiana:+594:GF;French Polynesia:+689:PF;Gabon:+241:GA;Gambia:+220:GM;Georgia:+995:GE;Germany:+49:DE;Ghana:+233:GH;Gibraltar:+350:GI;Greece:+30:GR;Greenland:+299:GL;Grenada:+1473:GD;Guadeloupe:+590:GP;Guam:+1671:GU;Guatemala:+502:GT;Guernsey:+44:GG;Guinea:+224:GN;Guinea-Bissau:+245:GW;Guyana:+592:GY;Haiti:+509:HT;Holy See (Vatican City State):+379:VA;Honduras:+504:HN;Hong Kong:+852:HK;Hungary:+36:HU;Iceland:+354:IS;India:+91:IN;Indonesia:+62:ID;Iran:+98:IR;Iraq:+964:IQ;Ireland:+353:IE;Isle of Man:+44:IM;Israel:+972:IL;Italy:+39:IT;Jamaica:+1876:JM;Japan:+81:JP;Jersey:+44:JE;Jordan:+962:JO;Kazakhstan:+7:KZ;Kenya:+254:KE;Kiribati:+686:KI;Korea, Democratic People's Republic of:+850:KP;Korea, Republic of:+82:KR;Kuwait:+965:KW;Kyrgyzstan:+996:KG;Lao People's Democratic Republic:+856:LA;Latvia:+371:LV;Lebanon:+961:LB;Lesotho:+266:LS;Liberia:+231:LR;Libya:+218:LY;Liechtenstein:+423:LI;Lithuania:+370:LT;Luxembourg:+352:LU;Macao:+853:MO;Macedonia:+389:MK;Madagascar:+261:MG;Malawi:+265:MW;Malaysia:+60:MY;Maldives:+960:MV;Mali:+223:ML;Malta:+356:MT;Marshall Islands:+692:MH;Martinique:+596:MQ;Mauritania:+222:MR;Mauritius:+230:MU;Mayotte:+262:YT;Mexico:+52:MX;Micronesia:+691:FM;Moldova:+373:MD;Monaco:+377:MC;Mongolia:+976:MN;Montenegro:+382:ME;Montserrat:+1664:MS;Morocco:+212:MA;Mozambique:+258:MZ;Myanmar:+95:MM;Namibia:+264:NA;Nauru:+674:NR;Nepal:+977:NP;Netherlands:+31:NL;New Caledonia:+687:NC;New Zealand:+64:NZ;Nicaragua:+505:NI;Niger:+227:NE;Nigeria:+234:NG;Niue:+683:NU;Norfolk Island:+672:NF;Northern Mariana Islands:+1670:MP;Norway:+47:NO;Oman:+968:OM;Pakistan:+92:PK;Palau:+680:PW;Palestinian Territory:+970:PS;Panama:+507:PA;Papua New Guinea:+675:PG;Paraguay:+595:PY;Peru:+51:PE;Philippines:+63:PH;Pitcairn:+872:PN;Poland:+48:PL;Portugal:+351:PT;Puerto Rico:+1939:PR;Qatar:+974:QA;Reunion:+262:RE;Romania:+40:RO;Russia:+7:RU;Rwanda:+250:RW;Saint Barthelemy:+590:BL;Saint Helena:+290:SH;Saint Kitts and Nevis:+1869:KN;Saint Lucia:+1758:LC;Saint Martin:+590:MF;Saint Pierre and Miquelon:+508:PM;Saint Vincent and the Grenadines:+1784:VC;Samoa:+685:WS;San Marino:+378:SM;Sao Tome and Principe:+239:ST;Saudi Arabia:+966:SA;Senegal:+221:SN;Serbia:+381:RS;Seychelles:+248:SC;Sierra Leone:+232:SL;Singapore:+65:SG;Slovakia:+421:SK;Slovenia:+386:SI;Solomon Islands:+677:SB;Somalia:+252:SO;South Africa:+27:ZA;South Georgia and the South Sandwich Islands:+500:GS;Spain:+34:ES;Sri Lanka:+94:LK;Sudan:+249:SD;Suriname:+597:SR;Svalbard and Jan Mayen:+47:SJ;Swaziland:+268:SZ;Sweden:+46:SE;Switzerland:+41:CH;Syrian Arab Republic:+963:SY;Taiwan:+886:TW;Tajikistan:+992:TJ;Tanzania:+255:TZ;Thailand:+66:TH;Timor-Leste:+670:TL;Togo:+228:TG;Tokelau:+690:TK;Tonga:+676:TO;Trinidad and Tobago:+1868:TT;Tunisia:+216:TN;Turkey:+90:TR;Turkmenistan:+993:TM;Turks and Caicos Islands:+1649:TC;Tuvalu:+688:TV;Uganda:+256:UG;Ukraine:+380:UA;United Arab Emirates:+971:AE;United Kingdom:+44:GB;United States:+1:US;Uruguay:+598:UY;Uzbekistan:+998:UZ;Vanuatu:+678:VU;Venezuela:+58:VE;Viet Nam:+84:VN;Virgin Islands, British:+1284:VG;Virgin Islands, U.S.:+1340:VI;Wallis and Futuna:+681:WF;Western Sahara:+212:EH;Yemen:+967:YE;Zambia:+260:ZM;Zimbabwe:+263:ZW"
}

} // verus!
